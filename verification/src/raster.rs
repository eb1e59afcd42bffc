//! Rasterization of a vertex list under each primitive.
//!
//! A vertex list is cut into groups, the groups are drawn independently of
//! each other on `rayon`'s worker threads, and what they draw is joined in
//! the order of the groups and clipped to the display.

use vstd::prelude::*;
use rayon::iter::{IntoParallelRefIterator, ParallelIterator};
use crate::clip::{clip, clipped, on_display};
use crate::line::{bresenham_rasterize, line_path, white_at};
use crate::seqs::{lemma_flatten_push, lemma_to_set_add};
use crate::strip::{
    chunks_of, loop_pairs, loop_windows, pair_views, pairs, strip_pairs, strip_triplets,
    triplet_views, triplets, windows_of,
};
use crate::triangle::{
    bresenham_rasterize_triangle, rasterize_triangle, triangle_fill, triangle_outline,
};
use crate::{Config, Pixel, PixelBuffer, Primitive, Vertex, VertexBuffer};

verus! {

/// Maps `f` over `items` on `rayon`'s worker threads: `par_iter` on the
/// slice, `ParallelIterator::map` with `f`, and `collect` into a vector.
///
/// Taken on trust from `rayon`: the result has one entry for each item, the
/// entry at an index is what a call of `f` on the item at that index
/// returned, and `f` is called on items of the slice only.
#[verifier::external_body]
pub(crate) fn par_map<T: Sync, U: Send, F: Fn(&T) -> U + Sync + Send>(items: &[T], f: F) -> (out:
    Vec<U>)
    requires
        forall|i: int| 0 <= i < items@.len() ==> call_requires(f, (&#[trigger] items@[i],)),
    ensures
        out@.len() == items@.len(),
        forall|i: int|
            0 <= i < items@.len() ==> call_ensures(f, (&items@[i],), #[trigger] out@[i]),
{
    items.par_iter().map(f).collect()
}

/// The views of a list of pixel vectors.
pub open spec fn part_views(parts: Seq<Vec<Pixel>>) -> Seq<Seq<Pixel>> {
    parts.map_values(|part: Vec<Pixel>| part@)
}

/// Joins the pixel lists of `parts` into one, in order.
pub fn join_parts(parts: &Vec<Vec<Pixel>>) -> (pixels: Vec<Pixel>)
    ensures
        pixels@ == part_views(parts@).flatten(),
{
    let mut pixels: Vec<Pixel> = Vec::new();
    let ghost views = part_views(parts@);
    let mut i: usize = 0;
    assert(views.take(0).flatten() =~= Seq::<Pixel>::empty());
    while i < parts.len()
        invariant
            i <= parts@.len(),
            views == part_views(parts@),
            pixels@ == views.take(i as int).flatten(),
        decreases parts@.len() - i,
    {
        let part = &parts[i];
        let ghost before = pixels@;
        let mut j: usize = 0;
        while j < part.len()
            invariant
                j <= part@.len(),
                pixels@ == before + part@.take(j as int),
            decreases part@.len() - j,
        {
            pixels.push(part[j]);
            assert(part@.take(j + 1) == part@.take(j as int).push(part@[j as int]));
            j += 1;
        }
        proof {
            assert(part@.take(j as int) == part@);
            assert(views.take(i + 1) == views.take(i as int).push(part@));
            lemma_flatten_push(views.take(i as int), part@);
        }
        i += 1;
    }
    assert(views.take(i as int) == views);
    pixels
}

/// One white pixel at each vertex of `v`.
pub open spec fn points_pixels(v: Seq<Vertex>) -> Seq<Pixel> {
    v.map_values(|p: Vertex| white_at(p.x as int, p.y as int))
}

/// The lines of a list of vertex pairs, one after the other.
pub open spec fn segments_pixels(groups: Seq<Seq<Vertex>>) -> Seq<Pixel> {
    groups.map_values(|g: Seq<Vertex>| line_path(g[0], g[1])).flatten()
}

/// The outlines of a list of triangles, one after the other.
pub open spec fn outlines_pixels(groups: Seq<Seq<Vertex>>) -> Seq<Pixel> {
    groups.map_values(|g: Seq<Vertex>| triangle_outline(g)).flatten()
}

/// The fills of a list of triangles, one after the other.
pub open spec fn fills_pixels(groups: Seq<Seq<Vertex>>) -> Seq<Pixel> {
    groups.map_values(|g: Seq<Vertex>| triangle_fill(g)).flatten()
}

/// Draws each pair of `groups` as a line.
pub fn rasterize_segments(groups: &Vec<[Vertex; 2]>) -> (pixels: Vec<Pixel>)
    ensures
        pixels@ == segments_pixels(pair_views(groups@)),
{
    let parts = par_map(groups.as_slice(), bresenham_rasterize);
    assert(part_views(parts@) =~= pair_views(groups@).map_values(
        |g: Seq<Vertex>| line_path(g[0], g[1]),
    ));
    join_parts(&parts)
}

/// Draws the outline of each triangle of `groups`.
pub fn rasterize_outlines(groups: &Vec<[Vertex; 3]>) -> (pixels: Vec<Pixel>)
    ensures
        pixels@ == outlines_pixels(triplet_views(groups@)),
{
    let parts = par_map(groups.as_slice(), bresenham_rasterize_triangle);
    assert(part_views(parts@) =~= triplet_views(groups@).map_values(
        |g: Seq<Vertex>| triangle_outline(g),
    ));
    join_parts(&parts)
}

/// Fills each triangle of `groups`.
pub fn rasterize_fills(groups: &Vec<[Vertex; 3]>) -> (pixels: Vec<Pixel>)
    ensures
        pixels@ == fills_pixels(triplet_views(groups@)),
{
    let parts = par_map(groups.as_slice(), rasterize_triangle);
    assert(part_views(parts@) =~= triplet_views(groups@).map_values(
        |g: Seq<Vertex>| triangle_fill(g),
    ));
    join_parts(&parts)
}

/// The white pixel at a vertex.
pub fn vertex_pixel(vertex: &Vertex) -> (pixel: Pixel)
    ensures
        pixel == white_at(vertex.x as int, vertex.y as int),
{
    Pixel { x: vertex.x, y: vertex.y, color: (255, 255, 255, 255) }
}

/// Draws each vertex as a single pixel.
pub fn rasterize_points(vbuf: &[Vertex]) -> (pixels: Vec<Pixel>)
    ensures
        pixels@ == points_pixels(vbuf@),
{
    let pixels = par_map(vbuf, vertex_pixel);
    assert(pixels@ =~= points_pixels(vbuf@));
    pixels
}

/// Draws each disjoint pair of vertices as a line.
pub fn rasterize_lines(vbuf: &[Vertex]) -> (pixels: Vec<Pixel>)
    ensures
        pixels@ == segments_pixels(chunks_of(vbuf@, 2)),
{
    rasterize_segments(&pairs(vbuf))
}

/// Draws a line between every two neighbours.
pub fn rasterize_line_strips(vbuf: &[Vertex]) -> (pixels: Vec<Pixel>)
    ensures
        pixels@ == segments_pixels(windows_of(vbuf@, 2)),
{
    rasterize_segments(&strip_pairs(vbuf))
}

/// Draws a line between every two neighbours, and one from the last vertex
/// back to the first.
pub fn rasterize_line_loops(vbuf: &[Vertex]) -> (pixels: Vec<Pixel>)
    ensures
        pixels@ == segments_pixels(loop_windows(vbuf@)),
{
    rasterize_segments(&loop_pairs(vbuf))
}

/// Draws the outline of each disjoint triplet of vertices.
pub fn rasterize_triangle_wires(vbuf: &[Vertex]) -> (pixels: Vec<Pixel>)
    ensures
        pixels@ == outlines_pixels(chunks_of(vbuf@, 3)),
{
    rasterize_outlines(&triplets(vbuf))
}

/// Draws the outline of every three neighbours.
pub fn rasterize_triangle_wire_strips(vbuf: &[Vertex]) -> (pixels: Vec<Pixel>)
    ensures
        pixels@ == outlines_pixels(windows_of(vbuf@, 3)),
{
    rasterize_outlines(&strip_triplets(vbuf))
}

/// Fills each disjoint triplet of vertices.
pub fn rasterize_triangles(vbuf: &[Vertex]) -> (pixels: Vec<Pixel>)
    ensures
        pixels@ == fills_pixels(chunks_of(vbuf@, 3)),
{
    rasterize_fills(&triplets(vbuf))
}

/// Fills the triangle of every three neighbours.
pub fn rasterize_triangle_strips(vbuf: &[Vertex]) -> (pixels: Vec<Pixel>)
    ensures
        pixels@ == fills_pixels(windows_of(vbuf@, 3)),
{
    rasterize_fills(&strip_triplets(vbuf))
}

/// The pixels of the vertex list `v` drawn as `primitive`, before clipping.
/// `LineLoopFilled` is reserved and draws nothing.
pub open spec fn raw_pixels(v: Seq<Vertex>, primitive: Primitive) -> Seq<Pixel> {
    match primitive {
        Primitive::Point => points_pixels(v),
        Primitive::Line => segments_pixels(chunks_of(v, 2)),
        Primitive::LineStrip => segments_pixels(windows_of(v, 2)),
        Primitive::LineLoop => segments_pixels(loop_windows(v)),
        Primitive::LineLoopFilled => Seq::empty(),
        Primitive::Triangle => fills_pixels(chunks_of(v, 3)),
        Primitive::TriangleStrip => fills_pixels(windows_of(v, 3)),
        Primitive::TriangleWire => outlines_pixels(chunks_of(v, 3)),
        Primitive::TriangleWireStrip => outlines_pixels(windows_of(v, 3)),
    }
}

impl VertexBuffer {
    /// Rasterizes the vertex list as the primitive that `cfg` names and
    /// keeps the pixels that lie on the display of `cfg`.
    ///
    /// The vertex list is left as it is. No input is an error: a list too
    /// short for a single group gives an empty buffer.
    pub fn rasterize_scan(&mut self, cfg: &Config) -> (out: PixelBuffer)
        ensures
            final(self)@ == old(self)@,
            out@ == clipped(
                raw_pixels(old(self)@, cfg.primitive),
                cfg.display_width as int,
                cfg.display_height as int,
            ),
            forall|i: int|
                0 <= i < out@.len() ==> on_display(
                    #[trigger] out@[i],
                    cfg.display_width as int,
                    cfg.display_height as int,
                ),
            clipped(out@, cfg.display_width as int, cfg.display_height as int) == out@,
    {
        let vbuf = self.as_slice();
        let p_vec = match cfg.primitive {
            Primitive::Point => rasterize_points(vbuf),
            Primitive::Line => rasterize_lines(vbuf),
            Primitive::LineStrip => rasterize_line_strips(vbuf),
            Primitive::LineLoop => rasterize_line_loops(vbuf),
            Primitive::LineLoopFilled => Vec::new(),
            Primitive::Triangle => rasterize_triangles(vbuf),
            Primitive::TriangleStrip => rasterize_triangle_strips(vbuf),
            Primitive::TriangleWire => rasterize_triangle_wires(vbuf),
            Primitive::TriangleWireStrip => rasterize_triangle_wire_strips(vbuf),
        };
        PixelBuffer::from(clip(&p_vec, cfg.display_width, cfg.display_height))
    }
}

/// A line loop is the line strip over the same vertices followed by the
/// closing edge from the last vertex to the first: before clipping the loop
/// draws the pixels of the strip and then those of that edge, and after
/// clipping its set of pixels is the union of theirs.
pub proof fn lemma_loop_is_strip_then_closing_edge(v: Seq<Vertex>, width: int, height: int)
    requires
        v.len() >= 1,
    ensures
        raw_pixels(v, Primitive::LineLoop) == raw_pixels(v, Primitive::LineStrip) + line_path(
            v.last(),
            v[0],
        ),
        clipped(raw_pixels(v, Primitive::LineLoop), width, height).to_set() == clipped(
            raw_pixels(v, Primitive::LineStrip),
            width,
            height,
        ).to_set().union(clipped(line_path(v.last(), v[0]), width, height).to_set()),
{
    let draw = |g: Seq<Vertex>| line_path(g[0], g[1]);
    let closing = seq![v.last(), v[0]];
    let strip = windows_of(v, 2);
    assert(loop_windows(v) =~= strip.push(closing)) by {
        let lw = loop_windows(v);
        let looped = v.push(v[0]);
        assert(lw.len() == strip.len() + 1);
        assert forall|i: int| 0 <= i < lw.len() implies lw[i] == strip.push(closing)[i] by {
            if i < strip.len() {
                assert(looped.subrange(i, i + 2) =~= v.subrange(i, i + 2));
            } else {
                assert(looped.subrange(i, i + 2) =~= closing);
            }
        }
    }
    assert(strip.push(closing).map_values(draw) =~= strip.map_values(draw).push(draw(closing)));
    lemma_flatten_push(strip.map_values(draw), draw(closing));
    let pred = |p: Pixel| on_display(p, width, height);
    Seq::filter_distributes_over_add(
        raw_pixels(v, Primitive::LineStrip),
        line_path(v.last(), v[0]),
        pred,
    );
    lemma_to_set_add(
        clipped(raw_pixels(v, Primitive::LineStrip), width, height),
        clipped(line_path(v.last(), v[0]), width, height),
    );
}

} // verus!
