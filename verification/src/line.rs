//! Integer line rasterization.
//!
//! A segment from `a` to `b` is drawn with one pixel per unit step along its
//! longer axis. After `k` such steps the shorter axis has moved by
//! `k * minor / major`, rounded to the nearest integer with halves rounded
//! up. The executable rasterizer keeps the classic error accumulator; its
//! contract is stated over this closed form.

use vstd::prelude::*;
use vstd::arithmetic::div_mod::{lemma_fundamental_div_mod, lemma_fundamental_div_mod_converse};
use crate::{Pixel, Vertex};

verus! {

/// Distance between two coordinates.
pub open spec fn span(from: int, to: int) -> int {
    if from < to {
        to - from
    } else {
        from - to
    }
}

/// The coordinate `d` unit steps away from `from`, in the direction of `to`.
pub open spec fn toward(from: int, to: int, d: int) -> int {
    if from < to {
        from + d
    } else {
        from - d
    }
}

/// `k * minor / major` rounded to the nearest integer, halves rounded up.
pub open spec fn minor_offset(k: int, minor: int, major: int) -> int {
    if major == 0 {
        0
    } else {
        (2 * k * minor + major) / (2 * major)
    }
}

/// What is left over when `minor_offset` rounds: a value in `0 .. 2 * major`
/// that is `major` when `k * minor / major` is an integer and `0` when it lies
/// exactly halfway between two integers.
pub open spec fn minor_residue(k: int, minor: int, major: int) -> int {
    if major == 0 {
        0
    } else {
        (2 * k * minor + major) % (2 * major)
    }
}

/// The opaque white pixel at `(x, y)`.
pub open spec fn white_at(x: int, y: int) -> Pixel {
    Pixel { x: x as isize, y: y as isize, color: (255u8, 255u8, 255u8, 255u8) }
}

/// Number of unit steps from `a` to `b`: the larger of the two spans.
pub open spec fn line_steps(a: Vertex, b: Vertex) -> int {
    let dx = span(a.x as int, b.x as int);
    let dy = span(a.y as int, b.y as int);
    if dx >= dy {
        dx
    } else {
        dy
    }
}

/// Position of the line from `a` to `b` after `k` steps.
pub open spec fn line_point(a: Vertex, b: Vertex, k: int) -> (int, int) {
    let dx = span(a.x as int, b.x as int);
    let dy = span(a.y as int, b.y as int);
    if dx >= dy {
        (toward(a.x as int, b.x as int, k), toward(a.y as int, b.y as int, minor_offset(k, dy, dx)))
    } else {
        (toward(a.x as int, b.x as int, minor_offset(k, dx, dy)), toward(a.y as int, b.y as int, k))
    }
}

/// The pixels of the line from `a` to `b`, in drawing order.
pub open spec fn line_path(a: Vertex, b: Vertex) -> Seq<Pixel> {
    Seq::new(
        (line_steps(a, b) + 1) as nat,
        |k: int| white_at(line_point(a, b, k).0, line_point(a, b, k).1),
    )
}

/// A quotient and residue that satisfy the division identity are the
/// rounded offset and its residue.
pub proof fn lemma_offset_unique(k: int, minor: int, major: int, q: int, r: int)
    requires
        major > 0,
        0 <= r < 2 * major,
        2 * k * minor + major == q * (2 * major) + r,
    ensures
        minor_offset(k, minor, major) == q,
        minor_residue(k, minor, major) == r,
{
    lemma_fundamental_div_mod_converse(2 * k * minor + major, 2 * major, q, r);
}

/// The division identity behind `minor_offset` and `minor_residue`.
pub proof fn lemma_offset_identity(k: int, minor: int, major: int)
    requires
        major > 0,
    ensures
        2 * k * minor + major == minor_offset(k, minor, major) * (2 * major) + minor_residue(
            k,
            minor,
            major,
        ),
        0 <= minor_residue(k, minor, major) < 2 * major,
{
    let x = 2 * k * minor + major;
    let d = 2 * major;
    lemma_fundamental_div_mod(x, d);
    assert(d * (x / d) == (x / d) * d) by (nonlinear_arith);
}

/// One more step along the major axis moves the minor axis by at most one
/// unit, and does so exactly when the residue wraps around.
pub proof fn lemma_offset_step(k: int, minor: int, major: int)
    requires
        0 <= minor <= major,
        major > 0,
    ensures
        0 <= minor_residue(k, minor, major) < 2 * major,
        minor_residue(k, minor, major) + 2 * minor >= 2 * major ==> {
            &&& minor_offset(k + 1, minor, major) == minor_offset(k, minor, major) + 1
            &&& minor_residue(k + 1, minor, major) == minor_residue(k, minor, major) + 2 * minor
                - 2 * major
        },
        minor_residue(k, minor, major) + 2 * minor < 2 * major ==> {
            &&& minor_offset(k + 1, minor, major) == minor_offset(k, minor, major)
            &&& minor_residue(k + 1, minor, major) == minor_residue(k, minor, major) + 2 * minor
        },
{
    lemma_offset_identity(k, minor, major);
    let q = minor_offset(k, minor, major);
    let r = minor_residue(k, minor, major);
    assert(2 * (k + 1) * minor == 2 * k * minor + 2 * minor) by (nonlinear_arith);
    if r + 2 * minor >= 2 * major {
        assert((q + 1) * (2 * major) == q * (2 * major) + 2 * major) by (nonlinear_arith);
        lemma_offset_unique(k + 1, minor, major, q + 1, r + 2 * minor - 2 * major);
    } else {
        lemma_offset_unique(k + 1, minor, major, q, r + 2 * minor);
    }
}

/// The offset starts at zero and ends at `minor`.
pub proof fn lemma_offset_ends(minor: int, major: int)
    requires
        0 <= minor <= major,
        major > 0,
    ensures
        minor_offset(0, minor, major) == 0,
        minor_residue(0, minor, major) == major,
        minor_offset(major, minor, major) == minor,
        minor_residue(major, minor, major) == major,
{
    assert(2 * 0 * minor + major == 0 * (2 * major) + major) by (nonlinear_arith);
    lemma_offset_unique(0, minor, major, 0, major);
    assert(2 * major * minor + major == minor * (2 * major) + major) by (nonlinear_arith);
    lemma_offset_unique(major, minor, major, minor, major);
}

/// The offset never decreases along the line.
pub proof fn lemma_offset_monotone(j: int, k: int, minor: int, major: int)
    requires
        0 <= minor <= major,
        major > 0,
        j <= k,
    ensures
        minor_offset(j, minor, major) <= minor_offset(k, minor, major),
    decreases k - j,
{
    if j < k {
        lemma_offset_monotone(j, k - 1, minor, major);
        lemma_offset_step(k - 1, minor, major);
    }
}

/// Along the line the offset stays between zero and `minor`.
pub proof fn lemma_offset_range(k: int, minor: int, major: int)
    requires
        0 <= minor <= major,
        major > 0,
        0 <= k <= major,
    ensures
        0 <= minor_offset(k, minor, major) <= minor,
{
    lemma_offset_ends(minor, major);
    lemma_offset_monotone(0, k, minor, major);
    lemma_offset_monotone(k, major, minor, major);
}


/// Twice the value of the error accumulator after `k` steps of a line whose
/// spans are `dx` and `dy`.
pub open spec fn twice_error(dx: int, dy: int, k: int) -> int {
    if dx >= dy {
        3 * dx - 2 * dy - minor_residue(k, dy, dx)
    } else {
        minor_residue(k, dx, dy) + 2 * dx - 3 * dy
    }
}

/// Whether step `k + 1` of the line moves along the x axis.
pub open spec fn steps_x(dx: int, dy: int, k: int) -> bool {
    dx >= dy || minor_offset(k + 1, dx, dy) != minor_offset(k, dx, dy)
}

/// Whether step `k + 1` of the line moves along the y axis.
pub open spec fn steps_y(dx: int, dy: int, k: int) -> bool {
    dx < dy || minor_offset(k + 1, dy, dx) != minor_offset(k, dy, dx)
}

/// How the accumulator decides one step, and what it is afterwards.
///
/// With `e2` twice the accumulator after `k` steps: the x axis moves exactly
/// when `e2 >= -dy`, the y axis exactly when `e2 <= dx`, and each axis that
/// moves has not yet reached its target.
pub proof fn lemma_error_step(dx: int, dy: int, k: int)
    requires
        0 <= dx,
        0 <= dy,
        0 <= k < (if dx >= dy { dx } else { dy }),
    ensures
        steps_x(dx, dy, k) <==> twice_error(dx, dy, k) >= -dy,
        steps_y(dx, dy, k) <==> twice_error(dx, dy, k) <= dx,
        steps_x(dx, dy, k) || steps_y(dx, dy, k),
        twice_error(dx, dy, k + 1) == twice_error(dx, dy, k) - (if steps_x(dx, dy, k) {
            2 * dy
        } else {
            0
        }) + (if steps_y(dx, dy, k) {
            2 * dx
        } else {
            0
        }),
        dx < dy ==> 0 <= minor_offset(k, dx, dy) <= dx && minor_offset(k + 1, dx, dy) <= dx
            && minor_offset(k + 1, dx, dy) == minor_offset(k, dx, dy) + (if steps_x(dx, dy, k) {
            1int
        } else {
            0int
        }),
        dx >= dy ==> 0 <= minor_offset(k, dy, dx) <= dy && minor_offset(k + 1, dy, dx) <= dy
            && minor_offset(k + 1, dy, dx) == minor_offset(k, dy, dx) + (if steps_y(dx, dy, k) {
            1int
        } else {
            0int
        }),
{
    if dx >= dy {
        lemma_offset_step(k, dy, dx);
        lemma_offset_range(k, dy, dx);
        lemma_offset_range(k + 1, dy, dx);
    } else {
        lemma_offset_step(k, dx, dy);
        lemma_offset_range(k, dx, dy);
        lemma_offset_range(k + 1, dx, dy);
    }
}

/// The line starts at `a`, ends at `b`, and stays inside the box they span.
pub proof fn lemma_line_point_range(a: Vertex, b: Vertex, k: int)
    requires
        0 <= k <= line_steps(a, b),
    ensures
        line_point(a, b, 0) == (a.x as int, a.y as int),
        line_point(a, b, line_steps(a, b)) == (b.x as int, b.y as int),
        a.x <= line_point(a, b, k).0 <= b.x || b.x <= line_point(a, b, k).0 <= a.x,
        a.y <= line_point(a, b, k).1 <= b.y || b.y <= line_point(a, b, k).1 <= a.y,
{
    let dx = span(a.x as int, b.x as int);
    let dy = span(a.y as int, b.y as int);
    if dx >= dy {
        if dx > 0 {
            lemma_offset_ends(dy, dx);
            lemma_offset_range(k, dy, dx);
        }
    } else {
        lemma_offset_ends(dx, dy);
        lemma_offset_range(k, dx, dy);
    }
}

/// Two pixels that differ by at most one unit in each axis.
pub open spec fn adjacent(p: Pixel, q: Pixel) -> bool {
    &&& -1 <= q.x - p.x <= 1
    &&& -1 <= q.y - p.y <= 1
}

/// Each pixel of `s` is adjacent to the one after it.
pub open spec fn eight_connected(s: Seq<Pixel>) -> bool {
    forall|k: int| 0 <= k < s.len() - 1 ==> adjacent(#[trigger] s[k], s[k + 1])
}

/// A line runs from its start to its end without a gap: the first pixel is
/// `a`, the last is `b`, and consecutive pixels differ by at most one unit in
/// each axis.
pub proof fn lemma_line_connected(a: Vertex, b: Vertex)
    ensures
        line_path(a, b).len() == line_steps(a, b) + 1,
        line_path(a, b).first() == white_at(a.x as int, a.y as int),
        line_path(a, b).last() == white_at(b.x as int, b.y as int),
        eight_connected(line_path(a, b)),
{
    let s = line_path(a, b);
    let n = line_steps(a, b);
    let dx = span(a.x as int, b.x as int);
    let dy = span(a.y as int, b.y as int);
    lemma_line_point_range(a, b, 0);
    assert forall|k: int| 0 <= k < s.len() - 1 implies adjacent(#[trigger] s[k], s[k + 1]) by {
        lemma_line_point_range(a, b, k);
        lemma_line_point_range(a, b, k + 1);
        lemma_error_step(dx, dy, k);
    }
}

/// Whether the line from `a` to `b` passes, at step `k`, exactly halfway
/// between two pixels of its shorter axis.
pub open spec fn tie_at(a: Vertex, b: Vertex, k: int) -> bool {
    let dx = span(a.x as int, b.x as int);
    let dy = span(a.y as int, b.y as int);
    if dx >= dy {
        dx > 0 && minor_residue(k, dy, dx) == 0
    } else {
        minor_residue(k, dx, dy) == 0
    }
}

/// Whether some step of the line from `a` to `b` is a tie.
pub open spec fn has_tie(a: Vertex, b: Vertex) -> bool {
    exists|k: int| 0 <= k <= line_steps(a, b) && tie_at(a, b, k)
}

/// Away from a tie, the offsets seen from the two ends of a line add up to
/// the whole minor span.
pub proof fn lemma_offset_mirror(k: int, minor: int, major: int)
    requires
        0 <= minor <= major,
        major > 0,
        minor_residue(k, minor, major) != 0,
    ensures
        minor_offset(major - k, minor, major) == minor - minor_offset(k, minor, major),
        minor_residue(major - k, minor, major) == 2 * major - minor_residue(k, minor, major),
{
    lemma_offset_identity(k, minor, major);
    let q = minor_offset(k, minor, major);
    let r = minor_residue(k, minor, major);
    assert(2 * (major - k) * minor + major == (minor - q) * (2 * major) + (2 * major - r))
        by (nonlinear_arith)
        requires
            2 * k * minor + major == q * (2 * major) + r,
    ;
    lemma_offset_unique(major - k, minor, major, minor - q, 2 * major - r);
}

/// At a tie, the offsets seen from the two ends overshoot the minor span by
/// one.
pub proof fn lemma_offset_mirror_tie(k: int, minor: int, major: int)
    requires
        0 <= minor <= major,
        major > 0,
        minor_residue(k, minor, major) == 0,
    ensures
        minor_offset(major - k, minor, major) == minor - minor_offset(k, minor, major) + 1,
{
    lemma_offset_identity(k, minor, major);
    let q = minor_offset(k, minor, major);
    assert(2 * (major - k) * minor + major == (minor - q + 1) * (2 * major) + 0)
        by (nonlinear_arith)
        requires
            2 * k * minor + major == q * (2 * major) + 0,
    ;
    lemma_offset_unique(major - k, minor, major, minor - q + 1, 0);
}

/// Drawn from the other end, a line without a tie visits the same positions
/// in the opposite order.
pub proof fn lemma_line_point_reversed(a: Vertex, b: Vertex, k: int)
    requires
        0 <= k <= line_steps(a, b),
        !tie_at(a, b, k),
    ensures
        line_steps(b, a) == line_steps(a, b),
        line_point(b, a, line_steps(a, b) - k) == line_point(a, b, k),
{
    let dx = span(a.x as int, b.x as int);
    let dy = span(a.y as int, b.y as int);
    if dx >= dy {
        if dx > 0 {
            lemma_offset_mirror(k, dy, dx);
            lemma_offset_range(k, dy, dx);
        }
    } else {
        lemma_offset_mirror(k, dx, dy);
        lemma_offset_range(k, dx, dy);
    }
}

/// Swapping the endpoints of a line without a tie gives the same pixels in
/// the opposite order, and so the same set of pixels.
pub proof fn lemma_line_reversal(a: Vertex, b: Vertex)
    requires
        !has_tie(a, b),
    ensures
        line_path(b, a) == line_path(a, b).reverse(),
        line_path(b, a).to_set() == line_path(a, b).to_set(),
{
    let n = line_steps(a, b);
    let fwd = line_path(a, b);
    let bwd = line_path(b, a);
    assert(line_steps(b, a) == n);
    assert forall|k: int| 0 <= k <= n implies #[trigger] bwd[k] == fwd[n - k] by {
        assert(!tie_at(a, b, n - k));
        lemma_line_point_reversed(a, b, n - k);
    }
    assert(bwd =~= fwd.reverse());
    assert forall|p: Pixel| bwd.to_set().contains(p) <==> fwd.to_set().contains(p) by {
        if bwd.contains(p) {
            let k = choose|k: int| 0 <= k < bwd.len() && bwd[k] == p;
            assert(fwd[n - k] == p);
        }
        if fwd.contains(p) {
            let k = choose|k: int| 0 <= k < fwd.len() && fwd[k] == p;
            assert(bwd[n - k] == p);
        }
    }
    assert(bwd.to_set() =~= fwd.to_set());
}

/// A tie makes the two directions disagree: at that step the line drawn from
/// `b` lies one unit off the line drawn from `a`.
pub proof fn lemma_line_reversal_tie(a: Vertex, b: Vertex, k: int)
    requires
        0 <= k <= line_steps(a, b),
        tie_at(a, b, k),
    ensures
        line_point(b, a, line_steps(a, b) - k) != line_point(a, b, k),
{
    let dx = span(a.x as int, b.x as int);
    let dy = span(a.y as int, b.y as int);
    if dx >= dy {
        lemma_offset_mirror_tie(k, dy, dx);
        lemma_offset_range(k, dy, dx);
        lemma_offset_range(dx - k, dy, dx);
    } else {
        lemma_offset_mirror_tie(k, dx, dy);
        lemma_offset_range(k, dx, dy);
        lemma_offset_range(dy - k, dx, dy);
    }
}

/// A line with a tie is not drawn the same way from its two ends: the pixel
/// of the tie belongs to the line drawn from `a` and not to the line drawn
/// from `b`.
pub proof fn lemma_line_reversal_fails_on_tie(a: Vertex, b: Vertex)
    requires
        has_tie(a, b),
    ensures
        line_path(b, a).to_set() != line_path(a, b).to_set(),
{
    let n = line_steps(a, b);
    let k = choose|k: int| 0 <= k <= n && tie_at(a, b, k);
    let fwd = line_path(a, b);
    let bwd = line_path(b, a);
    let p = fwd[k];
    assert(fwd.contains(p));
    lemma_line_point_range(a, b, k);
    if bwd.contains(p) {
        let j = choose|j: int| 0 <= j < bwd.len() && bwd[j] == p;
        lemma_line_point_range(b, a, j);
        assert(line_point(b, a, j) == line_point(a, b, k));
        assert(j == n - k);
        lemma_line_reversal_tie(a, b, k);
    }
    assert(fwd.to_set().contains(p) && !bwd.to_set().contains(p));
}

/// Rasterizes the segment from `pair[0]` to `pair[1]`.
///
/// The result holds one pixel per step along the longer axis, both endpoints
/// included; a segment of length zero gives a single pixel. Every pixel is
/// opaque white, and neighbours differ by at most one unit in each axis.
pub fn bresenham_rasterize(pair: &[Vertex; 2]) -> (pixels: Vec<Pixel>)
    ensures
        pixels@ == line_path(pair@[0], pair@[1]),
        pixels@.len() == line_steps(pair@[0], pair@[1]) + 1,
        pixels@.first() == white_at(pair@[0].x as int, pair@[0].y as int),
        pixels@.last() == white_at(pair@[1].x as int, pair@[1].y as int),
        eight_connected(pixels@),
{
    let a = pair[0];
    let b = pair[1];
    let mut x0: i128 = a.x as i128;
    let mut y0: i128 = a.y as i128;
    let x1: i128 = b.x as i128;
    let y1: i128 = b.y as i128;

    let dx: i128 = if x0 < x1 { x1 - x0 } else { x0 - x1 };
    let sx: i128 = if x0 < x1 { 1 } else { -1 };
    let dy: i128 = -(if y0 < y1 { y1 - y0 } else { y0 - y1 });
    let sy: i128 = if y0 < y1 { 1 } else { -1 };
    let mut error: i128 = dx + dy;

    let mut pixel_vec: Vec<Pixel> = Vec::new();
    let ghost n: int = line_steps(a, b);
    let ghost mut k: int = 0;

    proof {
        lemma_line_point_range(a, b, 0);
        if dx >= -dy {
            if dx > 0 {
                lemma_offset_ends(-dy as int, dx as int);
            }
        } else {
            lemma_offset_ends(dx as int, -dy as int);
        }
    }

    loop
        invariant_except_break
            0 <= k <= n,
            (x0 as int, y0 as int) == line_point(a, b, k),
            2 * error == twice_error(dx as int, -dy as int, k),
            pixel_vec@ == line_path(a, b).take(k),
        invariant
            n == line_steps(a, b),
            x1 == b.x,
            y1 == b.y,
            dx == span(a.x as int, b.x as int),
            dy == -span(a.y as int, b.y as int),
            sx == (if a.x < b.x { 1int } else { -1int }),
            sy == (if a.y < b.y { 1int } else { -1int }),
        ensures
            pixel_vec@ == line_path(a, b),
        decreases n - k,
    {
        proof {
            lemma_line_point_range(a, b, k);
        }
        pixel_vec.push(Pixel { x: x0 as isize, y: y0 as isize, color: (255, 255, 255, 255) });
        assert(pixel_vec@ == line_path(a, b).take(k + 1));

        if (x0 == x1) && (y0 == y1) {
            proof {
                lemma_line_point_range(a, b, n);
                assert(k == n);
                assert(line_path(a, b).take(n + 1) == line_path(a, b));
            }
            break;
        }
        proof {
            lemma_line_point_range(a, b, n);
            lemma_error_step(dx as int, -dy as int, k);
        }

        let e2 = error * 2;
        if e2 >= dy {
            if x0 == x1 {
                // An axis that has reached its target is not asked to move.
                assert(false);
                break;
            }
            error += dy;
            x0 += sx;
        }
        if e2 <= dx {
            if y0 == y1 {
                assert(false);
                break;
            }
            error += dx;
            y0 += sy;
        }
        proof {
            k = k + 1;
        }
    }

    proof {
        lemma_line_connected(a, b);
    }
    pixel_vec
}

} // verus!
