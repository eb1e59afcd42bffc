//! Scanline fill of a triangle with one horizontal side.
//!
//! Two edges leave the apex. Each is walked as a line, and every time a walk
//! moves to a new row it records the pixel it arrives at. Row by row, the
//! pixels between the two recorded arrivals are filled.

use vstd::prelude::*;
use vstd::arithmetic::div_mod::{lemma_fundamental_div_mod, lemma_fundamental_div_mod_converse};
use crate::line::{
    lemma_error_step, lemma_line_point_range, lemma_offset_ends, lemma_offset_identity,
    lemma_offset_monotone, lemma_offset_range, lemma_offset_step, lemma_offset_unique,
    line_point, line_steps, minor_offset, minor_residue, span, toward, twice_error, white_at,
};
use crate::seqs::{lemma_flatten_contains, lemma_flatten_push};
use crate::{Pixel, Vertex};

verus! {

/// The step at which a line with spans `dx` and `dy` arrives in the row
/// `row` units away from its start, for `1 <= row <= dy`.
///
/// A steep line changes row at every step. A shallow one arrives in row `row`
/// once `k * dy / dx` reaches `row - 1/2`, that is at the least `k` with
/// `2 * k * dy >= (2 * row - 1) * dx`.
pub open spec fn entry_step(row: int, dx: int, dy: int) -> int {
    if dx < dy {
        row
    } else if dy == 0 {
        0
    } else {
        ((2 * row - 1) * dx + 2 * dy - 1) / (2 * dy)
    }
}

/// The step at which the line from `a` to `b` arrives in the row `row` units
/// away from `a`.
pub open spec fn entry_index(a: Vertex, b: Vertex, row: int) -> int {
    entry_step(row, span(a.x as int, b.x as int), span(a.y as int, b.y as int))
}

/// The pixel at which the line from `a` to `b` arrives in the row `row` units
/// away from `a`.
pub open spec fn row_entry(a: Vertex, b: Vertex, row: int) -> (isize, isize) {
    let k = entry_index(a, b, row);
    (line_point(a, b, k).0 as isize, line_point(a, b, k).1 as isize)
}

/// Whether the line from `a` to `b` is steep: no longer across than it is
/// high. A steep line has exactly one pixel in each row that it passes.
pub open spec fn steep(a: Vertex, b: Vertex) -> bool {
    span(a.x as int, b.x as int) <= span(a.y as int, b.y as int)
}

/// The arrivals of the line from `a` to `b` in each row after its first, in
/// the order in which the line reaches them.
pub open spec fn edge_rows(a: Vertex, b: Vertex) -> Seq<(isize, isize)> {
    Seq::new(span(a.y as int, b.y as int) as nat, |i: int| row_entry(a, b, i + 1))
}

/// A shallow line that changes row at step `k + 1` arrives in its new row at
/// that step.
pub proof fn lemma_entry_step(k: int, dx: int, dy: int)
    requires
        0 <= dy <= dx,
        0 <= k < dx,
        minor_offset(k + 1, dy, dx) == minor_offset(k, dy, dx) + 1,
    ensures
        entry_step(minor_offset(k + 1, dy, dx), dx, dy) == k + 1,
        dy > 0,
{
    let row = minor_offset(k + 1, dy, dx);
    lemma_offset_identity(k, dy, dx);
    lemma_offset_identity(k + 1, dy, dx);
    if dy == 0 {
        lemma_offset_ends(dy, dx);
        lemma_offset_range(k, dy, dx);
        lemma_offset_range(k + 1, dy, dx);
    }
    let x = (2 * row - 1) * dx + 2 * dy - 1;
    let r = x - (k + 1) * (2 * dy);
    assert(0 <= r < 2 * dy) by (nonlinear_arith)
        requires
            r == (2 * row - 1) * dx + 2 * dy - 1 - (k + 1) * (2 * dy),
            2 * k * dy + dx == (row - 1) * (2 * dx) + minor_residue(k, dy, dx),
            2 * (k + 1) * dy + dx == row * (2 * dx) + minor_residue(k + 1, dy, dx),
            0 <= minor_residue(k, dy, dx) < 2 * dx,
            0 <= minor_residue(k + 1, dy, dx) < 2 * dx,
    ;
    lemma_fundamental_div_mod_converse(x, 2 * dy, k + 1, r);
}

/// Walks the line from `from` to `to` and records, each time the walk moves
/// to a new row, the pixel it arrives at.
///
/// The result has one entry for each row between the two vertices, the row
/// of `from` left out and the row of `to` included.
pub fn edge_walk(from: Vertex, to: Vertex) -> (rows: Vec<(isize, isize)>)
    ensures
        rows@ == edge_rows(from, to),
        rows@.len() == span(from.y as int, to.y as int),
{
    let mut x0: i128 = from.x as i128;
    let mut y0: i128 = from.y as i128;
    let x1: i128 = to.x as i128;
    let y1: i128 = to.y as i128;

    let dx: i128 = if x0 < x1 { x1 - x0 } else { x0 - x1 };
    let sx: i128 = if x0 < x1 { 1 } else { -1 };
    let dy: i128 = -(if y0 < y1 { y1 - y0 } else { y0 - y1 });
    let sy: i128 = if y0 < y1 { 1 } else { -1 };
    let mut error: i128 = dx + dy;

    let mut line_endpoints: Vec<(isize, isize)> = Vec::new();
    let ghost n: int = line_steps(from, to);
    let ghost mut k: int = 0;
    let ghost mut row: int = 0;

    proof {
        lemma_line_point_range(from, to, 0);
        if dx >= -dy {
            if dx > 0 {
                lemma_offset_ends(-dy as int, dx as int);
            }
        } else {
            lemma_offset_ends(dx as int, -dy as int);
        }
    }

    loop
        invariant_except_break
            0 <= k <= n,
            (x0 as int, y0 as int) == line_point(from, to, k),
            2 * error == twice_error(dx as int, -dy as int, k),
            y0 == toward(from.y as int, to.y as int, row),
            0 <= row <= -dy,
            line_endpoints@ == edge_rows(from, to).take(row),
        invariant
            n == line_steps(from, to),
            x1 == to.x,
            y1 == to.y,
            dx == span(from.x as int, to.x as int),
            dy == -span(from.y as int, to.y as int),
            sx == (if from.x < to.x { 1int } else { -1int }),
            sy == (if from.y < to.y { 1int } else { -1int }),
        ensures
            line_endpoints@ == edge_rows(from, to),
        decreases n - k,
    {
        proof {
            lemma_line_point_range(from, to, k);
            lemma_line_point_range(from, to, n);
        }
        if (x0 == x1) && (y0 == y1) {
            proof {
                assert(k == n);
                assert(row == -dy);
                assert(edge_rows(from, to).take(row) == edge_rows(from, to));
            }
            break;
        }
        proof {
            lemma_error_step(dx as int, -dy as int, k);
        }

        let e2 = error * 2;
        if e2 >= dy {
            if x0 == x1 {
                // An axis that has reached its target is not asked to move.
                assert(false);
                break;
            }
            error += dy;
            x0 += sx;
        }
        if e2 <= dx {
            if y0 == y1 {
                assert(false);
                break;
            }
            error += dx;
            y0 += sy;
            proof {
                lemma_line_point_range(from, to, k + 1);
                if dx >= -dy {
                    lemma_entry_step(k, dx as int, -dy as int);
                }
                assert(entry_step(row + 1, dx as int, -dy as int) == k + 1);
                assert(row_entry(from, to, row + 1) == (x0 as isize, y0 as isize));
            }
            line_endpoints.push((x0 as isize, y0 as isize));
            proof {
                assert(line_endpoints@ == edge_rows(from, to).take(row + 1));
                row = row + 1;
            }
        }
        proof {
            k = k + 1;
        }
    }

    line_endpoints
}

/// The pixels of row `y` from column `lo` to column `hi`, both included.
pub open spec fn run(lo: int, hi: int, y: int) -> Seq<Pixel> {
    Seq::new(
        if lo <= hi {
            (hi - lo + 1) as nat
        } else {
            0nat
        },
        |i: int| white_at(lo + i, y),
    )
}

/// The pixels between two arrivals, in the row of the first.
pub open spec fn row_run(start: (isize, isize), end: (isize, isize)) -> Seq<Pixel> {
    if start.0 <= end.0 {
        run(start.0 as int, end.0 as int, start.1 as int)
    } else {
        run(end.0 as int, start.0 as int, start.1 as int)
    }
}

/// The runs between the arrivals of two walks, paired in order. Where one
/// walk recorded more rows than the other, the surplus is left out.
pub open spec fn fill_rows(left: Seq<(isize, isize)>, right: Seq<(isize, isize)>) -> Seq<
    Seq<Pixel>,
> {
    Seq::new(
        if left.len() <= right.len() {
            left.len()
        } else {
            right.len()
        },
        |i: int| row_run(left[i], right[i]),
    )
}

/// The pixels of the triangle with apex `t0` and far vertices `t1` and `t2`:
/// the apex, then row by row the runs between the edge towards `t1` and the
/// edge towards `t2`.
pub open spec fn flat_fill(t0: Vertex, t1: Vertex, t2: Vertex) -> Seq<Pixel> {
    seq![white_at(t0.x as int, t0.y as int)] + fill_rows(
        edge_rows(t0, t1),
        edge_rows(t0, t2),
    ).flatten()
}

/// Fills the triangle whose apex is `triplet[0]`, between the edge towards
/// `triplet[1]` and the edge towards `triplet[2]`.
///
/// The apex comes first, then one run of pixels for each row in which both
/// edges recorded an arrival. Where the two far vertices lie in the same row
/// that is every row from the one after the apex to theirs; where they do
/// not, the rows that only the longer edge reaches stay empty.
pub fn bresenham_rasterize_fill_flat(triplet: &[Vertex; 3]) -> (pixels: Vec<Pixel>)
    ensures
        pixels@ == flat_fill(triplet@[0], triplet@[1], triplet@[2]),
        triplet@[1].y == triplet@[2].y ==> fill_rows(
            edge_rows(triplet@[0], triplet@[1]),
            edge_rows(triplet@[0], triplet@[2]),
        ).len() == span(triplet@[0].y as int, triplet@[1].y as int),
{
    let v01_line_endpoints = edge_walk(triplet[0], triplet[1]);
    let v02_line_endpoints = edge_walk(triplet[0], triplet[2]);

    let mut pixel_vec: Vec<Pixel> = Vec::new();
    pixel_vec.push(Pixel { x: triplet[0].x, y: triplet[0].y, color: (255, 255, 255, 255) });

    let ghost apex = seq![white_at(triplet@[0].x as int, triplet@[0].y as int)];
    let ghost rows = fill_rows(v01_line_endpoints@, v02_line_endpoints@);
    assert(pixel_vec@ == apex + rows.take(0).flatten());

    let mut i: usize = 0;
    while i < v01_line_endpoints.len() && i < v02_line_endpoints.len()
        invariant
            i <= rows.len(),
            rows == fill_rows(v01_line_endpoints@, v02_line_endpoints@),
            pixel_vec@ == apex + rows.take(i as int).flatten(),
        decreases rows.len() - i,
    {
        let start = v01_line_endpoints[i];
        let end = v02_line_endpoints[i];
        let y = start.1;
        let lo = if start.0 <= end.0 { start.0 } else { end.0 };
        let hi = if start.0 <= end.0 { end.0 } else { start.0 };

        let ghost before = pixel_vec@;
        let mut x: i128 = lo as i128;
        while x <= hi as i128
            invariant
                lo <= x <= hi + 1,
                pixel_vec@ == before + run(lo as int, x - 1, y as int),
            decreases hi - x + 1,
        {
            pixel_vec.push(Pixel { x: x as isize, y, color: (255, 255, 255, 255) });
            x += 1;
            assert(pixel_vec@ == before + run(lo as int, x - 1, y as int));
        }
        proof {
            assert(run(lo as int, hi as int, y as int) == rows[i as int]);
            assert(rows.take(i + 1) == rows.take(i as int).push(rows[i as int]));
            lemma_flatten_push(rows.take(i as int), rows[i as int]);
        }
        i += 1;
    }
    assert(rows.take(i as int) == rows);

    pixel_vec
}

/// The arrival of a line in a row is a pixel of the line, lies in that row,
/// and is the first pixel of the line that does. On a steep line it is the
/// only one.
pub proof fn lemma_row_entry_on_line(a: Vertex, b: Vertex, row: int)
    requires
        1 <= row <= span(a.y as int, b.y as int),
    ensures
        1 <= entry_index(a, b, row) <= line_steps(a, b),
        line_point(a, b, entry_index(a, b, row)).0 == row_entry(a, b, row).0,
        line_point(a, b, entry_index(a, b, row)).1 == row_entry(a, b, row).1,
        row_entry(a, b, row).1 == toward(a.y as int, b.y as int, row),
        forall|j: int|
            0 <= j < entry_index(a, b, row) ==> (#[trigger] line_point(a, b, j)).1 != row_entry(
                a,
                b,
                row,
            ).1,
        steep(a, b) ==> forall|j: int|
            0 <= j <= line_steps(a, b) && j != entry_index(a, b, row) ==> (#[trigger] line_point(
                a,
                b,
                j,
            )).1 != row_entry(a, b, row).1,
{
    let dx = span(a.x as int, b.x as int);
    let dy = span(a.y as int, b.y as int);
    let k = entry_step(row, dx, dy);
    if dx >= dy {
        let x = (2 * row - 1) * dx + 2 * dy - 1;
        lemma_fundamental_div_mod(x, 2 * dy);
        let r = x % (2 * dy);
        assert(1 <= k <= dx) by (nonlinear_arith)
            requires
                x == (2 * dy) * k + r,
                0 <= r < 2 * dy,
                x == (2 * row - 1) * dx + 2 * dy - 1,
                1 <= row <= dy <= dx,
        ;
        lemma_offset_identity(k, dy, dx);
        lemma_offset_identity(k - 1, dy, dx);
        lemma_offset_step(k - 1, dy, dx);
        let q1 = minor_offset(k, dy, dx);
        let q0 = minor_offset(k - 1, dy, dx);
        assert(q1 >= row) by (nonlinear_arith)
            requires
                x == (2 * dy) * k + r,
                0 <= r < 2 * dy,
                x == (2 * row - 1) * dx + 2 * dy - 1,
                2 * k * dy + dx == q1 * (2 * dx) + minor_residue(k, dy, dx),
                0 <= minor_residue(k, dy, dx) < 2 * dx,
                dx > 0,
        ;
        assert(q0 < row) by (nonlinear_arith)
            requires
                x == (2 * dy) * k + r,
                0 <= r < 2 * dy,
                x == (2 * row - 1) * dx + 2 * dy - 1,
                2 * (k - 1) * dy + dx == q0 * (2 * dx) + minor_residue(k - 1, dy, dx),
                0 <= minor_residue(k - 1, dy, dx) < 2 * dx,
                dx > 0,
        ;
        assert(q1 == row && q0 == row - 1);
        lemma_line_point_range(a, b, k);
        assert forall|j: int| 0 <= j < k implies (#[trigger] line_point(a, b, j)).1 != row_entry(
            a,
            b,
            row,
        ).1 by {
            lemma_offset_monotone(j, k - 1, dy, dx);
            lemma_offset_range(j, dy, dx);
        }
        if dx <= dy {
            assert forall|j: int| 0 <= j <= line_steps(a, b) && j != k implies (
            #[trigger] line_point(a, b, j)).1 != row_entry(a, b, row).1 by {
                lemma_offset_range(j, dy, dx);
                if j > k {
                    lemma_offset_monotone(k + 1, j, dy, dx);
                    lemma_offset_step(k, dy, dx);
                    lemma_offset_ends(dy, dx);
                    lemma_offset_identity(k, dy, dx);
                    lemma_offset_diagonal(k, dx);
                    lemma_offset_diagonal(k + 1, dx);
                }
            }
        }
    } else {
        lemma_line_point_range(a, b, k);
    }
}

/// On a diagonal the minor axis moves with the major one.
pub proof fn lemma_offset_diagonal(k: int, d: int)
    requires
        d > 0,
    ensures
        minor_offset(k, d, d) == k,
{
    assert(2 * k * d + d == k * (2 * d) + d) by (nonlinear_arith);
    lemma_offset_unique(k, d, d, k, d);
}

/// Whether `p` is a white pixel of row `y` between columns `lo` and `hi`.
pub open spec fn in_run(lo: int, hi: int, y: int, p: Pixel) -> bool {
    &&& p.color == (255u8, 255u8, 255u8, 255u8)
    &&& p.y == y
    &&& lo <= p.x <= hi
}

/// A run holds exactly the white pixels of its row between its two ends.
pub proof fn lemma_run_contains(lo: isize, hi: isize, y: isize, p: Pixel)
    ensures
        run(lo as int, hi as int, y as int).contains(p) <==> in_run(
            lo as int,
            hi as int,
            y as int,
            p,
        ),
{
    let s = run(lo as int, hi as int, y as int);
    if in_run(lo as int, hi as int, y as int, p) {
        assert(s[p.x - lo] == p);
    }
    if s.contains(p) {
        let i = choose|i: int| 0 <= i < s.len() && s[i] == p;
        assert(p == white_at(lo + i, y as int));
    }
}

/// Whether `p` lies on the scanline `row` rows away from the apex `t0`,
/// between the arrival of the edge towards `t1` and that of the edge towards
/// `t2`, both included.
pub open spec fn on_scanline(t0: Vertex, t1: Vertex, t2: Vertex, row: int, p: Pixel) -> bool {
    let l = row_entry(t0, t1, row);
    let r = row_entry(t0, t2, row);
    if l.0 <= r.0 {
        in_run(l.0 as int, r.0 as int, l.1 as int, p)
    } else {
        in_run(r.0 as int, l.0 as int, l.1 as int, p)
    }
}

/// Whether `p` is the apex of the triangle or lies on one of its scanlines.
pub open spec fn flat_covers(t0: Vertex, t1: Vertex, t2: Vertex, p: Pixel) -> bool {
    ||| p == white_at(t0.x as int, t0.y as int)
    ||| exists|row: int|
        1 <= row <= span(t0.y as int, t1.y as int) && 1 <= row <= span(t0.y as int, t2.y as int)
            && #[trigger] on_scanline(t0, t1, t2, row, p)
}

/// The fill holds exactly the apex and, for every row between the apex and
/// the far vertices, the run of pixels between the two edges at that
/// scanline: from the pixel at which one rasterized edge enters the row to the
/// pixel at which the other does.
pub proof fn lemma_flat_fill_scanlines(t0: Vertex, t1: Vertex, t2: Vertex, p: Pixel)
    ensures
        flat_fill(t0, t1, t2).contains(p) <==> flat_covers(t0, t1, t2, p),
{
    let apex = seq![white_at(t0.x as int, t0.y as int)];
    let left = edge_rows(t0, t1);
    let right = edge_rows(t0, t2);
    let rows = fill_rows(left, right);
    let body = rows.flatten();
    lemma_flatten_contains(rows, p);
    assert forall|i: int| 0 <= i < rows.len() implies ((#[trigger] rows[i]).contains(p)
        <==> on_scanline(t0, t1, t2, i + 1, p)) by {
        let l = left[i];
        let r = right[i];
        if l.0 <= r.0 {
            lemma_run_contains(l.0, r.0, l.1, p);
        } else {
            lemma_run_contains(r.0, l.0, l.1, p);
        }
    }
    if flat_fill(t0, t1, t2).contains(p) {
        let j = choose|j: int| 0 <= j < (apex + body).len() && (apex + body)[j] == p;
        if j >= 1 {
            assert(body[j - 1] == p);
            assert(body.contains(p));
            let i = choose|i: int| 0 <= i < rows.len() && (#[trigger] rows[i]).contains(p);
            assert(on_scanline(t0, t1, t2, i + 1, p));
        }
    }
    if flat_covers(t0, t1, t2, p) {
        if p == white_at(t0.x as int, t0.y as int) {
            assert((apex + body)[0] == p);
        } else {
            let row = choose|row: int|
                1 <= row <= span(t0.y as int, t1.y as int) && 1 <= row <= span(
                    t0.y as int,
                    t2.y as int,
                ) && #[trigger] on_scanline(t0, t1, t2, row, p);
            assert(rows[row - 1].contains(p));
            assert(body.contains(p));
            let j = choose|j: int| 0 <= j < body.len() && body[j] == p;
            assert((apex + body)[j + 1] == p);
        }
    }
}

/// Whether `p` is a white pixel that lies in a row with a pixel of the line
/// from `t0` to `t1` and a pixel of the line from `t0` to `t2`, between the
/// two or on one of them.
pub open spec fn between_edges(t0: Vertex, t1: Vertex, t2: Vertex, p: Pixel) -> bool {
    exists|i: int, j: int|
        0 <= i <= line_steps(t0, t1) && 0 <= j <= line_steps(t0, t2) && #[trigger] spans(
            line_point(t0, t1, i),
            line_point(t0, t2, j),
            p,
        )
}

/// Whether `p` is a white pixel in the row of both `l` and `r`, between
/// their columns.
pub open spec fn spans(l: (int, int), r: (int, int), p: Pixel) -> bool {
    &&& l.1 == r.1
    &&& (in_run(l.0, r.0, l.1, p) || in_run(r.0, l.0, l.1, p))
}

/// Between two steep edges that end in the same row, the fill holds on every
/// scanline exactly the pixels from one rasterized edge to the other, both
/// included, and nothing else.
pub proof fn lemma_steep_fill_spans_edges(t0: Vertex, t1: Vertex, t2: Vertex, p: Pixel)
    requires
        t1.y == t2.y,
        steep(t0, t1),
        steep(t0, t2),
    ensures
        flat_fill(t0, t1, t2).contains(p) <==> between_edges(t0, t1, t2, p),
{
    lemma_flat_fill_scanlines(t0, t1, t2, p);
    let h = span(t0.y as int, t1.y as int);
    lemma_line_point_range(t0, t1, 0);
    lemma_line_point_range(t0, t2, 0);
    if flat_covers(t0, t1, t2, p) {
        if p == white_at(t0.x as int, t0.y as int) {
            assert(spans(line_point(t0, t1, 0), line_point(t0, t2, 0), p));
        } else {
            let row = choose|row: int|
                1 <= row <= span(t0.y as int, t1.y as int) && 1 <= row <= span(
                    t0.y as int,
                    t2.y as int,
                ) && #[trigger] on_scanline(t0, t1, t2, row, p);
            lemma_row_entry_on_line(t0, t1, row);
            lemma_row_entry_on_line(t0, t2, row);
            let i = entry_step(row, span(t0.x as int, t1.x as int), h);
            let j = entry_step(row, span(t0.x as int, t2.x as int), h);
            assert(spans(line_point(t0, t1, i), line_point(t0, t2, j), p));
        }
    }
    if between_edges(t0, t1, t2, p) {
        let (i, j) = choose|i: int, j: int|
            0 <= i <= line_steps(t0, t1) && 0 <= j <= line_steps(t0, t2) && #[trigger] spans(
                line_point(t0, t1, i),
                line_point(t0, t2, j),
                p,
            );
        lemma_line_point_range(t0, t1, i);
        lemma_line_point_range(t0, t2, j);
        lemma_steep_row(t0, t1, i);
        lemma_steep_row(t0, t2, j);
        if i == 0 {
            assert(j == 0);
            assert(p == white_at(t0.x as int, t0.y as int));
        } else {
            assert(j == i);
            lemma_row_entry_on_line(t0, t1, i);
            lemma_row_entry_on_line(t0, t2, i);
            let ki = entry_step(i, span(t0.x as int, t1.x as int), h);
            let kj = entry_step(i, span(t0.x as int, t2.x as int), h);
            lemma_steep_row(t0, t1, ki);
            lemma_steep_row(t0, t2, kj);
            assert(ki == i && kj == i);
            assert(on_scanline(t0, t1, t2, i, p));
        }
    }
}

/// A steep line is `k` rows away from its start after `k` steps.
pub proof fn lemma_steep_row(a: Vertex, b: Vertex, k: int)
    requires
        steep(a, b),
        0 <= k <= line_steps(a, b),
    ensures
        line_point(a, b, k).1 == toward(a.y as int, b.y as int, k),
        line_steps(a, b) == span(a.y as int, b.y as int),
{
    let dx = span(a.x as int, b.x as int);
    let dy = span(a.y as int, b.y as int);
    if dx >= dy && dx > 0 {
        lemma_offset_diagonal(k, dx);
    }
}

} // verus!
