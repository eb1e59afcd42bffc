use std::collections::BTreeSet;

use kelder_scherm_renderer::line::bresenham_rasterize;
use kelder_scherm_renderer::{Pixel, Vertex};

fn line(a: (isize, isize), b: (isize, isize)) -> Vec<(isize, isize)> {
    let pixels = bresenham_rasterize(&[Vertex { x: a.0, y: a.1 }, Vertex { x: b.0, y: b.1 }]);
    for p in &pixels {
        assert_eq!(p.color, (255, 255, 255, 255));
    }
    pixels.iter().map(|p: &Pixel| (p.x, p.y)).collect()
}

/// The line as the error accumulator draws it.
fn accumulator_line(a: (isize, isize), b: (isize, isize)) -> Vec<(isize, isize)> {
    let (mut x0, mut y0) = a;
    let (x1, y1) = b;
    let dx = (x1 - x0).abs();
    let sx = if x0 < x1 { 1 } else { -1 };
    let dy = -(y1 - y0).abs();
    let sy = if y0 < y1 { 1 } else { -1 };
    let mut error = dx + dy;
    let mut out = Vec::new();
    loop {
        out.push((x0, y0));
        if x0 == x1 && y0 == y1 {
            break;
        }
        let e2 = 2 * error;
        if e2 >= dy {
            if x0 == x1 {
                break;
            }
            error += dy;
            x0 += sx;
        }
        if e2 <= dx {
            if y0 == y1 {
                break;
            }
            error += dx;
            y0 += sy;
        }
    }
    out
}

#[test]
fn zero_length_segment_is_one_pixel() {
    assert_eq!(line((7, -3), (7, -3)), vec![(7, -3)]);
}

#[test]
fn axis_parallel_lines() {
    assert_eq!(line((0, 0), (4, 0)), vec![(0, 0), (1, 0), (2, 0), (3, 0), (4, 0)]);
    assert_eq!(line((0, 0), (0, 4)), vec![(0, 0), (0, 1), (0, 2), (0, 3), (0, 4)]);
    assert_eq!(line((0, 0), (-4, 0)), vec![(0, 0), (-1, 0), (-2, 0), (-3, 0), (-4, 0)]);
    assert_eq!(line((0, 0), (0, -4)), vec![(0, 0), (0, -1), (0, -2), (0, -3), (0, -4)]);
}

#[test]
fn diagonal_lines() {
    assert_eq!(line((0, 0), (3, 3)), vec![(0, 0), (1, 1), (2, 2), (3, 3)]);
    assert_eq!(line((0, 0), (-3, 3)), vec![(0, 0), (-1, 1), (-2, 2), (-3, 3)]);
    assert_eq!(line((2, 2), (0, 0)), vec![(2, 2), (1, 1), (0, 0)]);
}

#[test]
fn one_line_in_each_octant() {
    assert_eq!(line((0, 0), (5, 2)), vec![(0, 0), (1, 0), (2, 1), (3, 1), (4, 2), (5, 2)]);
    assert_eq!(line((0, 0), (2, 5)), vec![(0, 0), (0, 1), (1, 2), (1, 3), (2, 4), (2, 5)]);
    assert_eq!(line((0, 0), (-2, 5)), vec![(0, 0), (0, 1), (-1, 2), (-1, 3), (-2, 4), (-2, 5)]);
    assert_eq!(line((0, 0), (-5, 2)), vec![(0, 0), (-1, 0), (-2, 1), (-3, 1), (-4, 2), (-5, 2)]);
    assert_eq!(
        line((0, 0), (-5, -2)),
        vec![(0, 0), (-1, 0), (-2, -1), (-3, -1), (-4, -2), (-5, -2)]
    );
    assert_eq!(
        line((0, 0), (-2, -5)),
        vec![(0, 0), (0, -1), (-1, -2), (-1, -3), (-2, -4), (-2, -5)]
    );
    assert_eq!(line((0, 0), (2, -5)), vec![(0, 0), (0, -1), (1, -2), (1, -3), (2, -4), (2, -5)]);
    assert_eq!(line((0, 0), (5, -2)), vec![(0, 0), (1, 0), (2, -1), (3, -1), (4, -2), (5, -2)]);
}

#[test]
fn halves_round_away_from_the_start() {
    // Halfway between two rows the line takes the row further from its start.
    assert_eq!(line((0, 0), (2, 1)), vec![(0, 0), (1, 1), (2, 1)]);
    assert_eq!(line((2, 1), (0, 0)), vec![(2, 1), (1, 0), (0, 0)]);
    assert_eq!(line((0, 0), (6, 3)), vec![(0, 0), (1, 1), (2, 1), (3, 2), (4, 2), (5, 3), (6, 3)]);
}

#[test]
fn line_matches_the_error_accumulator() {
    for x0 in -3..=3 {
        for y0 in -3..=3 {
            for x1 in -9..=9 {
                for y1 in -9..=9 {
                    assert_eq!(line((x0, y0), (x1, y1)), accumulator_line((x0, y0), (x1, y1)));
                }
            }
        }
    }
}

#[test]
fn line_has_one_pixel_per_step_of_its_longer_span() {
    for x1 in -12..=12isize {
        for y1 in -12..=12isize {
            let n = line((1, -2), (x1, y1)).len() as isize;
            assert_eq!(n, (x1 - 1).abs().max((y1 + 2).abs()) + 1);
        }
    }
}

#[test]
fn line_runs_from_start_to_end_without_a_gap() {
    for x1 in -12..=12 {
        for y1 in -12..=12 {
            let path = line((2, 3), (x1, y1));
            assert_eq!(path[0], (2, 3));
            assert_eq!(path[path.len() - 1], (x1, y1));
            for w in path.windows(2) {
                assert!((w[1].0 - w[0].0).abs() <= 1);
                assert!((w[1].1 - w[0].1).abs() <= 1);
                assert_ne!(w[0], w[1]);
            }
        }
    }
}

/// Whether the line passes exactly halfway between two pixels at some step.
fn passes_halfway(a: (isize, isize), b: (isize, isize)) -> bool {
    let dx = (b.0 - a.0).abs();
    let dy = (b.1 - a.1).abs();
    let (minor, major) = if dx >= dy { (dy, dx) } else { (dx, dy) };
    major > 0 && (0..=major).any(|k| (2 * k * minor + major) % (2 * major) == 0)
}

#[test]
fn swapping_the_endpoints_gives_the_same_pixels_unless_the_line_passes_halfway() {
    for x1 in -10..=10 {
        for y1 in -10..=10 {
            let a = (1, 1);
            let b = (x1, y1);
            let forward: BTreeSet<_> = line(a, b).into_iter().collect();
            let backward: BTreeSet<_> = line(b, a).into_iter().collect();
            if passes_halfway(a, b) {
                assert_ne!(forward, backward);
            } else {
                assert_eq!(forward, backward);
                let mut reversed = line(b, a);
                reversed.reverse();
                assert_eq!(line(a, b), reversed);
            }
        }
    }
}

#[test]
fn far_apart_endpoints_do_not_overflow() {
    let far = isize::MAX;
    let path = line((far - 3, isize::MIN), (far, isize::MIN + 2));
    assert_eq!(
        path,
        vec![
            (far - 3, isize::MIN),
            (far - 2, isize::MIN + 1),
            (far - 1, isize::MIN + 1),
            (far, isize::MIN + 2)
        ]
    );
}
