use kelder_scherm_renderer::dyadic::{round_ratio, Binary};
use kelder_scherm_renderer::split::split_abscissa;
use kelder_scherm_renderer::triangle::rasterize_triangle;
use kelder_scherm_renderer::Vertex;

/// The same formula in hardware arithmetic.
fn split_in_hardware(v0: (isize, isize), v1: (isize, isize), v2: (isize, isize)) -> isize {
    let rise = (v1.1 as i128 - v0.1 as i128) as f64;
    let height = (v2.1 as i128 - v0.1 as i128) as f64;
    let run = (v2.0 as i128 - v0.0 as i128) as f64;
    ((v0.0 as f64) + (rise / height) * run) as isize
}

fn split(v0: (isize, isize), v1: (isize, isize), v2: (isize, isize)) -> isize {
    split_abscissa(
        Vertex { x: v0.0, y: v0.1 },
        Vertex { x: v1.0, y: v1.1 },
        Vertex { x: v2.0, y: v2.1 },
    )
}

/// A hardware number taken apart into sign, mantissa of 53 bits and exponent.
fn parts(x: f64) -> (bool, u64, i32) {
    if x == 0.0 {
        return (false, 0, 0);
    }
    let bits = x.to_bits();
    let exponent = ((bits >> 52) & 0x7ff) as i32;
    assert!(exponent != 0 && exponent != 0x7ff);
    ((bits >> 63) == 1, (bits & ((1 << 52) - 1)) | (1 << 52), exponent - 1075)
}

fn same(b: Binary, x: f64) {
    assert_eq!((b.negative, b.mantissa, b.exponent), parts(x));
}

struct Lcg(u64);

impl Lcg {
    fn next(&mut self) -> u64 {
        self.0 = self.0.wrapping_mul(6364136223846793005).wrapping_add(1442695040888963407);
        self.0 >> 11
    }

    fn below(&mut self, bound: u64) -> isize {
        (self.next() % bound) as isize
    }

    fn around_zero(&mut self, bits: u32) -> isize {
        let magnitude = (self.next() >> (53 - bits.min(53))) as isize;
        if self.next() % 2 == 0 {
            magnitude
        } else {
            -magnitude
        }
    }
}

#[test]
fn split_of_a_small_triangle() {
    // 0 + 3/8 * 2 = 0.75
    assert_eq!(split((0, 0), (6, 3), (2, 8)), 0);
    // 1 + 1/2 * 6 = 4
    assert_eq!(split((1, 0), (9, 5), (7, 10)), 4);
    // 10 + 1/4 * -8 = 8
    assert_eq!(split((10, -4), (0, -3), (2, 0)), 8);
}

#[test]
fn split_is_cut_towards_zero() {
    // -5 + 1/2 * 1 = -4.5
    assert_eq!(split((-5, 0), (10, 1), (-4, 2)), -4);
    // 5 + 1/2 * -1 = 4.5
    assert_eq!(split((5, 0), (10, 1), (4, 2)), 4);
    // -1 + 1/2 * 1 = -0.5
    assert_eq!(split((-1, 0), (10, 1), (0, 2)), 0);
}

#[test]
fn split_keeps_the_rounding_of_double_precision() {
    // 24/47 is rounded down, so that 24/47 * -47 stays just above -24 and
    // the sum just above -18.
    assert_eq!(split((6, -2), (-28, 22), (-41, 45)), -17);
    assert_eq!(split((-50, -50), (2, -24), (35, 35)), -23);
    assert_eq!(split((14, 22), (50, 37), (-38, 48)), -15);
    assert_eq!(split((-27, -3), (-17, 28), (16, 40)), 3);
}

#[test]
fn split_agrees_with_hardware_on_a_grid() {
    for x0 in -6..=6 {
        for x2 in -6..=6 {
            for y1 in 1..12 {
                for y2 in (y1 + 1)..14 {
                    let (v0, v1, v2) = ((x0 * 7, 0), (0, y1), (x2 * 5, y2));
                    assert_eq!(split(v0, v1, v2), split_in_hardware(v0, v1, v2));
                }
            }
        }
    }
}

#[test]
fn split_agrees_with_hardware_on_scattered_triangles() {
    let mut rng = Lcg(7);
    for round in 0..60000 {
        let bits = 4 + (round % 50) as u32;
        let x0 = rng.around_zero(bits);
        let x2 = rng.around_zero(bits);
        let y0 = rng.around_zero(bits);
        let rise = 1 + rng.below(1 << (round % 40 + 1));
        let rest = 1 + rng.below(1 << (round % 37 + 1));
        let (v0, v1, v2) = ((x0, y0), (0, y0 + rise), (x2, y0 + rise + rest));
        assert_eq!(split(v0, v1, v2), split_in_hardware(v0, v1, v2));
    }
}

#[test]
fn split_agrees_with_hardware_at_the_ends_of_the_range() {
    let ends = [
        isize::MIN,
        isize::MIN + 1,
        isize::MIN / 2,
        -(1 << 53) - 1,
        -(1 << 53),
        -1,
        0,
        1,
        (1 << 53) - 1,
        (1 << 53) + 1,
        isize::MAX / 2,
        isize::MAX - 1,
        isize::MAX,
    ];
    for &x0 in &ends {
        for &x2 in &ends {
            for &y0 in &ends {
                for &y1 in &ends {
                    for &y2 in &ends {
                        if y0 < y1 && y1 < y2 {
                            let (v0, v1, v2) = ((x0, y0), (0, y1), (x2, y2));
                            assert_eq!(split(v0, v1, v2), split_in_hardware(v0, v1, v2));
                        }
                    }
                }
            }
        }
    }
}

#[test]
fn split_beyond_the_range_is_the_end_of_the_range() {
    assert_eq!(split((isize::MAX, 0), (0, 1), (isize::MAX, 2)), isize::MAX);
    assert_eq!(split((isize::MIN, 0), (0, 1), (isize::MIN, 2)), isize::MIN);
}

#[test]
fn conversion_agrees_with_hardware() {
    same(Binary::from_int(0), 0.0);
    same(Binary::from_int(1), 1.0);
    same(Binary::from_int(-3), -3.0);
    let mut rng = Lcg(11);
    for round in 0..20000 {
        let shift = round % 64;
        let i = ((rng.next() << 11 | rng.next()) >> shift) as i128;
        same(Binary::from_int(i), i as f64);
        same(Binary::from_int(-i), -(i as f64));
    }
    let past_53_bits =
        [(1i128 << 53) + 1, (1 << 53) + 3, (1 << 54) + 2, (1 << 54) + 6, (1 << 64) - 1, 1 << 64];
    for i in past_53_bits {
        same(Binary::from_int(i), i as f64);
        same(Binary::from_int(-i), -(i as f64));
    }
}

#[test]
fn rounding_takes_the_even_neighbour_at_a_tie() {
    // 2^53 + 1 lies between 2^53 and 2^53 + 2; the even mantissa is 2^52.
    assert_eq!(round_ratio((1 << 53) + 1, 1), (1 << 52, 1));
    // 2^53 + 3 lies between 2^53 + 2 and 2^53 + 4; the even mantissa is 2^52 + 2.
    assert_eq!(round_ratio((1 << 53) + 3, 1), ((1 << 52) + 2, 1));
    // 2^54 - 1 rounds up to 2^54.
    assert_eq!(round_ratio((1 << 54) - 1, 1), (1 << 52, 2));
    assert_eq!(round_ratio(1, 3), (0x15_5555_5555_5555, -54));
    assert_eq!(round_ratio(2, 3), (0x15_5555_5555_5555, -53));
    assert_eq!(round_ratio(1, 1), (1 << 52, -52));
}

#[test]
fn division_multiplication_and_addition_agree_with_hardware() {
    let mut rng = Lcg(3);
    for round in 0..40000 {
        let bits = 1 + (round % 53) as u32;
        let b = 1 + rng.below(1 << (round % 50 + 1)) as i128;
        let c = 1 + rng.below(1 << ((round / 3) % 50 + 1)) as i128;
        let d = rng.around_zero(bits) as i128;
        let a = rng.around_zero(((round / 7) % 53) as u32 + 1) as i128;
        let q = Binary::from_int(b).div(Binary::from_int(c));
        same(q, b as f64 / c as f64);
        let p = q.mul(Binary::from_int(d));
        same(p, (b as f64 / c as f64) * d as f64);
        let s = Binary::from_int(a).add(p);
        same(s, a as f64 + (b as f64 / c as f64) * d as f64);
        assert_eq!(s.trunc_to_isize(), (a as f64 + (b as f64 / c as f64) * d as f64) as isize);
    }
}

#[test]
fn addition_of_numbers_far_apart_keeps_the_larger() {
    let tiny = Binary::from_int(1).div(Binary::from_int(1 << 62)).div(Binary::from_int(1 << 10));
    let large = Binary::from_int(1 << 60);
    same(large.add(tiny), (1u64 << 60) as f64);
    same(tiny.add(large), (1u64 << 60) as f64);
    let minus = Binary::from_int(-(1 << 60));
    same(minus.add(tiny), -((1u64 << 60) as f64));
    same(large.add(minus), 0.0);
}

#[test]
fn cutting_to_an_integer() {
    assert_eq!(Binary::from_int(7).div(Binary::from_int(2)).trunc_to_isize(), 3);
    assert_eq!(Binary::from_int(0).trunc_to_isize(), 0);
    assert_eq!(Binary::from_int(1).div(Binary::from_int(3)).trunc_to_isize(), 0);
    let q = Binary::from_int(7).div(Binary::from_int(2)).mul(Binary::from_int(-1));
    assert_eq!(q.trunc_to_isize(), -3);
    assert_eq!(Binary::from_int(1 << 64).trunc_to_isize(), isize::MAX);
    assert_eq!(Binary::from_int(-(1 << 64)).trunc_to_isize(), isize::MIN);
}

#[test]
fn triangles_are_cut_where_hardware_cuts_them() {
    // The exact crossing is column -18; double precision gives -17.
    let t = [(6, -2), (-28, 22), (-41, 45)];
    let pixels = rasterize_triangle(&[
        Vertex { x: t[0].0, y: t[0].1 },
        Vertex { x: t[1].0, y: t[1].1 },
        Vertex { x: t[2].0, y: t[2].1 },
    ]);
    let middle_row: Vec<isize> = pixels.iter().filter(|p| p.y == 22).map(|p| p.x).collect();
    let expected: Vec<isize> = (-28..=-17).chain(-28..=-17).collect();
    assert_eq!(middle_row, expected);
}
