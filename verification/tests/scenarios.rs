use std::collections::BTreeSet;

use kelder_scherm_renderer::{Config, Pixel, Primitive, Vertex, VertexBuffer};

fn white(x: isize, y: isize) -> Pixel {
    Pixel { x, y, color: (255, 255, 255, 255) }
}

fn whites(points: &[(isize, isize)]) -> Vec<Pixel> {
    points.iter().map(|&(x, y)| white(x, y)).collect()
}

fn scan(
    points: &[(isize, isize)],
    width: usize,
    height: usize,
    primitive: Primitive,
) -> Vec<Pixel> {
    let list: Vec<Vertex> = points.iter().map(|&(x, y)| Vertex { x, y }).collect();
    let mut buf = VertexBuffer::from(list);
    let cfg = Config::new(width, height, primitive);
    let out = buf.rasterize_scan(&cfg);
    out.iter().copied().collect()
}

fn positions(pixels: &[Pixel]) -> BTreeSet<(isize, isize)> {
    pixels.iter().map(|p| (p.x, p.y)).collect()
}

const ALL_PRIMITIVES: [Primitive; 9] = [
    Primitive::Point,
    Primitive::Line,
    Primitive::LineStrip,
    Primitive::LineLoop,
    Primitive::LineLoopFilled,
    Primitive::Triangle,
    Primitive::TriangleStrip,
    Primitive::TriangleWire,
    Primitive::TriangleWireStrip,
];

#[test]
fn config_new_keeps_its_arguments() {
    let cfg = Config::new(600, 800, Primitive::TriangleStrip);
    assert_eq!(cfg.display_width, 600);
    assert_eq!(cfg.display_height, 800);
    assert_eq!(cfg.primitive, Primitive::TriangleStrip);
}

#[test]
fn buffers_hand_back_what_they_were_made_from() {
    let buf = VertexBuffer::from(vec![Vertex { x: 1, y: 2 }, Vertex { x: -3, y: 4 }]);
    assert_eq!(buf.len(), 2);
    assert_eq!((buf[0].x, buf[0].y), (1, 2));
    assert_eq!((buf[1].x, buf[1].y), (-3, 4));
    let pixels = kelder_scherm_renderer::PixelBuffer::from(whites(&[(7, 8)]));
    assert_eq!(pixels.len(), 1);
    assert_eq!(pixels[0], white(7, 8));
}

#[test]
fn line_mode_draws_the_diagonal() {
    let out = scan(&[(0, 0), (3, 3)], 100, 100, Primitive::Line);
    assert_eq!(out, whites(&[(0, 0), (1, 1), (2, 2), (3, 3)]));
}

#[test]
fn point_mode_draws_each_vertex_and_nothing_between() {
    let out = scan(&[(5, 5), (9, 9)], 100, 100, Primitive::Point);
    assert_eq!(out, whites(&[(5, 5), (9, 9)]));
}

#[test]
fn triangle_mode_fills_the_flat_triangle_row_by_row() {
    let out = scan(&[(0, 0), (4, 0), (2, 4)], 100, 100, Primitive::Triangle);
    // Row by row between the edges from the apex (2, 4): the edge to (4, 0)
    // and the edge to (0, 0) each move half a column per row, halves rounded
    // away from the apex column.
    let mut expected = BTreeSet::new();
    expected.insert((2, 4));
    for row in 1..=4isize {
        let reach = (2 * row * 2 + 4) / (2 * 4);
        for x in (2 - reach)..=(2 + reach) {
            expected.insert((x, 4 - row));
        }
    }
    assert_eq!(positions(&out), expected);
    assert_eq!(
        out,
        whites(&[
            (2, 4),
            (1, 3),
            (2, 3),
            (3, 3),
            (1, 2),
            (2, 2),
            (3, 2),
            (0, 1),
            (1, 1),
            (2, 1),
            (3, 1),
            (4, 1),
            (0, 0),
            (1, 0),
            (2, 0),
            (3, 0),
            (4, 0),
        ])
    );
}

#[test]
fn line_across_the_display_is_clipped_to_it() {
    let out = scan(&[(-5, -5), (15, 15)], 10, 10, Primitive::Line);
    let unclipped = scan(&[(-5, -5), (15, 15)], 1000, 1000, Primitive::Line);
    assert_eq!(unclipped, whites(&(0..=15).map(|i| (i, i)).collect::<Vec<_>>()));
    let expected: Vec<(isize, isize)> = (0..10).map(|i| (i, i)).collect();
    assert_eq!(out, whites(&expected));
}

#[test]
fn every_pixel_is_opaque_white() {
    for primitive in ALL_PRIMITIVES {
        for p in scan(&[(1, 1), (6, 2), (3, 7), (8, 8)], 20, 20, primitive) {
            assert_eq!(p.color, (255, 255, 255, 255));
        }
    }
}

#[test]
fn empty_buffer_draws_nothing_in_any_mode() {
    for primitive in ALL_PRIMITIVES {
        assert_eq!(scan(&[], 10, 10, primitive), vec![]);
    }
}

#[test]
fn too_few_vertices_draw_nothing() {
    assert_eq!(scan(&[(1, 1)], 10, 10, Primitive::Line), vec![]);
    assert_eq!(scan(&[(1, 1)], 10, 10, Primitive::LineStrip), vec![]);
    for primitive in [
        Primitive::Triangle,
        Primitive::TriangleStrip,
        Primitive::TriangleWire,
        Primitive::TriangleWireStrip,
    ] {
        assert_eq!(scan(&[(1, 1)], 10, 10, primitive), vec![]);
        assert_eq!(scan(&[(1, 1), (4, 4)], 10, 10, primitive), vec![]);
    }
}

#[test]
fn line_mode_drops_a_vertex_without_partner() {
    let out = scan(&[(0, 0), (2, 0), (5, 5)], 10, 10, Primitive::Line);
    assert_eq!(out, whites(&[(0, 0), (1, 0), (2, 0)]));
}

#[test]
fn line_mode_draws_disjoint_pairs_in_order() {
    let out = scan(&[(0, 0), (2, 0), (5, 5), (5, 7)], 10, 10, Primitive::Line);
    assert_eq!(out, whites(&[(0, 0), (1, 0), (2, 0), (5, 5), (5, 6), (5, 7)]));
}

#[test]
fn line_strip_joins_every_two_neighbours() {
    let out = scan(&[(0, 0), (2, 0), (2, 2)], 10, 10, Primitive::LineStrip);
    assert_eq!(out, whites(&[(0, 0), (1, 0), (2, 0), (2, 0), (2, 1), (2, 2)]));
}

#[test]
fn line_loop_is_the_strip_and_the_closing_edge() {
    let points = [(0, 0), (4, 1), (3, 5), (1, 4)];
    let looped = scan(&points, 10, 10, Primitive::LineLoop);
    let mut expected = scan(&points, 10, 10, Primitive::LineStrip);
    expected.extend(scan(&[(1, 4), (0, 0)], 10, 10, Primitive::Line));
    assert_eq!(looped, expected);
    assert_eq!(positions(&looped), positions(&expected));
}

#[test]
fn line_loop_of_two_vertices_goes_there_and_back() {
    let out = scan(&[(0, 0), (2, 1)], 10, 10, Primitive::LineLoop);
    assert_eq!(out, whites(&[(0, 0), (1, 1), (2, 1), (2, 1), (1, 0), (0, 0)]));
}

#[test]
fn line_loop_of_one_vertex_is_one_pixel() {
    assert_eq!(scan(&[(3, 4)], 10, 10, Primitive::LineLoop), whites(&[(3, 4)]));
}

#[test]
fn filled_line_loop_is_reserved_and_draws_nothing() {
    assert_eq!(scan(&[(0, 0), (4, 0), (2, 4)], 10, 10, Primitive::LineLoopFilled), vec![]);
}

#[test]
fn triangle_wire_draws_the_three_edges_in_order() {
    let out = scan(&[(0, 0), (2, 0), (2, 2)], 10, 10, Primitive::TriangleWire);
    assert_eq!(
        out,
        whites(&[(0, 0), (1, 0), (2, 0), (2, 0), (2, 1), (2, 2), (2, 2), (1, 1), (0, 0)])
    );
}

#[test]
fn triangle_mode_drops_leftover_vertices() {
    let one = scan(&[(0, 0), (4, 0), (2, 4)], 10, 10, Primitive::Triangle);
    let more = scan(&[(0, 0), (4, 0), (2, 4), (9, 9), (8, 1)], 10, 10, Primitive::Triangle);
    assert_eq!(one, more);
    let wire = scan(&[(0, 0), (4, 0), (2, 4)], 10, 10, Primitive::TriangleWire);
    let wire_more = scan(&[(0, 0), (4, 0), (2, 4), (9, 9)], 10, 10, Primitive::TriangleWire);
    assert_eq!(wire, wire_more);
}

#[test]
fn triangle_strip_fills_every_three_neighbours() {
    let points = [(0, 0), (4, 0), (2, 4), (6, 4)];
    let strip = scan(&points, 10, 10, Primitive::TriangleStrip);
    let mut expected = scan(&points[0..3], 10, 10, Primitive::Triangle);
    expected.extend(scan(&points[1..4], 10, 10, Primitive::Triangle));
    assert_eq!(strip, expected);
}

#[test]
fn triangle_wire_strip_outlines_every_three_neighbours() {
    let points = [(0, 0), (4, 0), (2, 4), (6, 4), (5, 8)];
    let strip = scan(&points, 10, 10, Primitive::TriangleWireStrip);
    let mut expected = scan(&points[0..3], 10, 10, Primitive::TriangleWire);
    expected.extend(scan(&points[1..4], 10, 10, Primitive::TriangleWire));
    expected.extend(scan(&points[2..5], 10, 10, Primitive::TriangleWire));
    assert_eq!(strip, expected);
}

#[test]
fn rasterizing_leaves_the_vertex_buffer_as_it_was() {
    let list = vec![Vertex { x: 5, y: 9 }, Vertex { x: 1, y: 1 }, Vertex { x: 8, y: 4 }];
    let mut buf = VertexBuffer::from(list);
    let _ = buf.rasterize_scan(&Config::new(10, 10, Primitive::Triangle));
    let after: Vec<(isize, isize)> = buf.iter().map(|v| (v.x, v.y)).collect();
    assert_eq!(after, vec![(5, 9), (1, 1), (8, 4)]);
}

#[test]
fn nothing_is_left_on_a_display_without_area() {
    assert_eq!(scan(&[(0, 0), (3, 3)], 0, 10, Primitive::Line), vec![]);
    assert_eq!(scan(&[(0, 0), (3, 3)], 10, 0, Primitive::Line), vec![]);
}

#[test]
fn output_lies_on_the_display_in_every_mode() {
    let points = [(-4, 3), (12, -2), (5, 14), (-1, -1), (9, 9), (3, 20)];
    for primitive in ALL_PRIMITIVES {
        for p in scan(&points, 8, 6, primitive) {
            assert!(0 <= p.x && p.x < 8 && 0 <= p.y && p.y < 6);
        }
    }
}

#[test]
fn many_groups_are_drawn_in_the_order_of_the_list() {
    let points: Vec<(isize, isize)> = (0..3000isize).map(|i| (i % 61, (i * 7) % 53)).collect();
    for primitive in ALL_PRIMITIVES {
        let groups: Vec<&[(isize, isize)]> = match primitive {
            Primitive::Point => points.chunks_exact(1).collect(),
            Primitive::Line => points.chunks_exact(2).collect(),
            Primitive::LineStrip => points.windows(2).collect(),
            Primitive::Triangle | Primitive::TriangleWire => points.chunks_exact(3).collect(),
            Primitive::TriangleStrip | Primitive::TriangleWireStrip => points.windows(3).collect(),
            Primitive::LineLoop | Primitive::LineLoopFilled => continue,
        };
        let mut expected = Vec::new();
        for group in groups {
            let alone = match primitive {
                Primitive::LineStrip => Primitive::Line,
                Primitive::TriangleStrip => Primitive::Triangle,
                Primitive::TriangleWireStrip => Primitive::TriangleWire,
                other => other,
            };
            expected.extend(scan(group, 70, 60, alone));
        }
        assert_eq!(scan(&points, 70, 60, primitive), expected);
    }
}
