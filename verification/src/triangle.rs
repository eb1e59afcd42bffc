//! Triangles: outline and scanline fill.

use vstd::prelude::*;
use crate::fill::{
    bresenham_rasterize_fill_flat, flat_covers, flat_fill, lemma_flat_fill_scanlines,
};
use crate::line::{bresenham_rasterize, line_path};
use crate::split::{split_abscissa, split_x};
use crate::{Pixel, Vertex};

verus! {

/// Whether vertex `j` of `t` comes before vertex `i` when `t` is put in
/// ascending order of `y`, vertices of equal `y` keeping their order.
pub open spec fn before_by_y(t: Seq<Vertex>, j: int, i: int) -> bool {
    t[j].y < t[i].y || (t[j].y == t[i].y && j < i)
}

/// The place of vertex `i` among the three vertices of `t` in that order.
pub open spec fn rank_by_y(t: Seq<Vertex>, i: int) -> int {
    (if before_by_y(t, 0, i) { 1int } else { 0int })
        + (if before_by_y(t, 1, i) { 1int } else { 0int })
        + (if before_by_y(t, 2, i) { 1int } else { 0int })
}

/// The three vertices of `t` in ascending order of `y`, vertices of equal
/// `y` keeping their order.
pub open spec fn sorted_by_y(t: Seq<Vertex>) -> Seq<Vertex> {
    Seq::new(
        3,
        |p: int|
            if rank_by_y(t, 0) == p {
                t[0]
            } else if rank_by_y(t, 1) == p {
                t[1]
            } else {
                t[2]
            },
    )
}

/// Puts three vertices in ascending order of `y` without touching the
/// caller's copy. Vertices of equal `y` keep their order.
pub fn sort_by_y(triplet: &[Vertex; 3]) -> (sorted: [Vertex; 3])
    ensures
        sorted@ == sorted_by_y(triplet@),
        sorted@[0].y <= sorted@[1].y <= sorted@[2].y,
        forall|i: int| 0 <= i < 3 ==> sorted@[rank_by_y(triplet@, i)] == #[trigger] triplet@[i],
{
    let mut v0 = triplet[0];
    let mut v1 = triplet[1];
    let mut v2 = triplet[2];
    if v1.y < v0.y {
        let t = v0;
        v0 = v1;
        v1 = t;
    }
    if v2.y < v1.y {
        let t = v1;
        v1 = v2;
        v2 = t;
        if v1.y < v0.y {
            let t = v0;
            v0 = v1;
            v1 = t;
        }
    }
    let sorted = [v0, v1, v2];
    assert(sorted@ =~= sorted_by_y(triplet@));
    sorted
}

/// The vertex at which the long edge of a triangle, sorted by `y`, crosses
/// the row of its middle vertex.
pub open spec fn split_vertex(s: Seq<Vertex>) -> Vertex {
    Vertex { x: split_x(s[0], s[1], s[2]) as isize, y: s[1].y }
}

/// The pixels of the filled triangle `t`.
///
/// With the vertices sorted by `y`: a triangle whose lower two vertices share
/// a row is filled from its top vertex; one whose upper two share a row, from
/// its bottom vertex; any other is cut at the row of its middle vertex into
/// two such triangles, filled from the top and from the bottom.
pub open spec fn triangle_fill(t: Seq<Vertex>) -> Seq<Pixel> {
    let s = sorted_by_y(t);
    if s[1].y == s[2].y {
        flat_fill(s[0], s[1], s[2])
    } else if s[0].y == s[1].y {
        flat_fill(s[2], s[1], s[0])
    } else {
        flat_fill(s[0], s[1], split_vertex(s)) + flat_fill(s[2], s[1], split_vertex(s))
    }
}

/// Fills the triangle `vbuf`. The caller's vertices are left as they are.
///
/// Each triangle that is handed to the flat fill has its two far vertices in
/// one row, so that both of its edges pass the same rows and none is left
/// unfilled.
pub fn rasterize_triangle(vbuf: &[Vertex; 3]) -> (pixels: Vec<Pixel>)
    ensures
        pixels@ == triangle_fill(vbuf@),
{
    let s = sort_by_y(vbuf);

    if s[1].y == s[2].y {
        bresenham_rasterize_fill_flat(&s)
    } else if s[0].y == s[1].y {
        bresenham_rasterize_fill_flat(&[s[2], s[1], s[0]])
    } else {
        let x4 = split_abscissa(s[0], s[1], s[2]);
        let split_vertex = Vertex { x: x4, y: s[1].y };
        let mut pbuf = bresenham_rasterize_fill_flat(&[s[0], s[1], split_vertex]);
        let mut lower = bresenham_rasterize_fill_flat(&[s[2], s[1], split_vertex]);
        pbuf.append(&mut lower);
        pbuf
    }
}

/// Whether the filled triangle `t` covers the pixel `p`: whether `p` is an
/// apex or lies on a scanline of the one or two flat triangles that `t` is
/// filled as.
pub open spec fn triangle_covers(t: Seq<Vertex>, p: Pixel) -> bool {
    let s = sorted_by_y(t);
    if s[1].y == s[2].y {
        flat_covers(s[0], s[1], s[2], p)
    } else if s[0].y == s[1].y {
        flat_covers(s[2], s[1], s[0], p)
    } else {
        flat_covers(s[0], s[1], split_vertex(s), p) || flat_covers(s[2], s[1], split_vertex(s), p)
    }
}

/// A filled triangle holds, for every row between its lowest and highest
/// vertex, exactly the run of pixels between its two boundary edges at that
/// scanline, an edge's place in a row being the pixel at which its line
/// enters the row coming from the apex; and besides these the apex itself.
pub proof fn lemma_triangle_fill_scanlines(t: Seq<Vertex>, p: Pixel)
    ensures
        triangle_fill(t).contains(p) <==> triangle_covers(t, p),
{
    let s = sorted_by_y(t);
    if s[1].y == s[2].y {
        lemma_flat_fill_scanlines(s[0], s[1], s[2], p);
    } else if s[0].y == s[1].y {
        lemma_flat_fill_scanlines(s[2], s[1], s[0], p);
    } else {
        let upper = flat_fill(s[0], s[1], split_vertex(s));
        let lower = flat_fill(s[2], s[1], split_vertex(s));
        lemma_flat_fill_scanlines(s[0], s[1], split_vertex(s), p);
        lemma_flat_fill_scanlines(s[2], s[1], split_vertex(s), p);
        if upper.contains(p) {
            let i = choose|i: int| 0 <= i < upper.len() && upper[i] == p;
            assert((upper + lower)[i] == p);
        }
        if lower.contains(p) {
            let i = choose|i: int| 0 <= i < lower.len() && lower[i] == p;
            assert((upper + lower)[upper.len() + i] == p);
        }
        if (upper + lower).contains(p) {
            let i = choose|i: int| 0 <= i < (upper + lower).len() && (upper + lower)[i] == p;
            if i < upper.len() {
                assert(upper[i] == p);
            } else {
                assert(lower[i - upper.len()] == p);
            }
        }
    }
}

/// The outline of the triangle `t`: its three edges, each drawn as a line,
/// from the first vertex to the second, on to the third and back.
pub open spec fn triangle_outline(t: Seq<Vertex>) -> Seq<Pixel> {
    line_path(t[0], t[1]) + line_path(t[1], t[2]) + line_path(t[2], t[0])
}

/// Draws the outline of the triangle `triplet`.
pub fn bresenham_rasterize_triangle(triplet: &[Vertex; 3]) -> (pixels: Vec<Pixel>)
    ensures
        pixels@ == triangle_outline(triplet@),
{
    let first = [triplet[0], triplet[1]];
    let second = [triplet[1], triplet[2]];
    let third = [triplet[2], triplet[0]];
    let mut pbuf = bresenham_rasterize(&first);
    assert(pbuf@ == line_path(triplet@[0], triplet@[1]));
    let mut second_edge = bresenham_rasterize(&second);
    assert(second_edge@ == line_path(triplet@[1], triplet@[2]));
    let mut third_edge = bresenham_rasterize(&third);
    assert(third_edge@ == line_path(triplet@[2], triplet@[0]));
    pbuf.append(&mut second_edge);
    assert(pbuf@ == line_path(triplet@[0], triplet@[1]) + line_path(triplet@[1], triplet@[2]));
    pbuf.append(&mut third_edge);
    pbuf
}

} // verus!
