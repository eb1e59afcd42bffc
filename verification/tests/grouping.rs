use kelder_scherm_renderer::strip::{
    loop_pairs, pairs, strip_pairs, strip_triplets, triplets, VertexLineStripBuffer,
    VertexTriangleStripBuffer,
};
use kelder_scherm_renderer::Vertex;

fn numbered(n: isize) -> Vec<Vertex> {
    (0..n).map(|i| Vertex { x: i, y: 10 * i }).collect()
}

fn names<const N: usize>(groups: &[[Vertex; N]]) -> Vec<Vec<isize>> {
    for g in groups {
        for p in g {
            assert_eq!(p.y, 10 * p.x);
        }
    }
    groups.iter().map(|g| g.iter().map(|p| p.x).collect()).collect()
}

#[test]
fn pairs_are_disjoint_and_drop_the_odd_vertex() {
    assert_eq!(names(&pairs(&numbered(0))), Vec::<Vec<isize>>::new());
    assert_eq!(names(&pairs(&numbered(1))), Vec::<Vec<isize>>::new());
    assert_eq!(names(&pairs(&numbered(2))), vec![vec![0, 1]]);
    assert_eq!(names(&pairs(&numbered(5))), vec![vec![0, 1], vec![2, 3]]);
}

#[test]
fn triplets_are_disjoint_and_drop_what_is_left_over() {
    assert_eq!(names(&triplets(&numbered(2))), Vec::<Vec<isize>>::new());
    assert_eq!(names(&triplets(&numbered(3))), vec![vec![0, 1, 2]]);
    assert_eq!(names(&triplets(&numbered(7))), vec![vec![0, 1, 2], vec![3, 4, 5]]);
    assert_eq!(names(&triplets(&numbered(8))), vec![vec![0, 1, 2], vec![3, 4, 5]]);
}

#[test]
fn strip_pairs_overlap_by_one_vertex() {
    assert_eq!(names(&strip_pairs(&numbered(0))), Vec::<Vec<isize>>::new());
    assert_eq!(names(&strip_pairs(&numbered(1))), Vec::<Vec<isize>>::new());
    assert_eq!(names(&strip_pairs(&numbered(4))), vec![vec![0, 1], vec![1, 2], vec![2, 3]]);
}

#[test]
fn strip_triplets_overlap_by_two_vertices() {
    assert_eq!(names(&strip_triplets(&numbered(0))), Vec::<Vec<isize>>::new());
    assert_eq!(names(&strip_triplets(&numbered(2))), Vec::<Vec<isize>>::new());
    assert_eq!(names(&strip_triplets(&numbered(3))), vec![vec![0, 1, 2]]);
    assert_eq!(
        names(&strip_triplets(&numbered(5))),
        vec![vec![0, 1, 2], vec![1, 2, 3], vec![2, 3, 4]]
    );
}

#[test]
fn loop_pairs_end_with_the_closing_pair() {
    assert_eq!(names(&loop_pairs(&numbered(0))), Vec::<Vec<isize>>::new());
    assert_eq!(names(&loop_pairs(&numbered(1))), vec![vec![0, 0]]);
    assert_eq!(names(&loop_pairs(&numbered(2))), vec![vec![0, 1], vec![1, 0]]);
    assert_eq!(
        names(&loop_pairs(&numbered(4))),
        vec![vec![0, 1], vec![1, 2], vec![2, 3], vec![3, 0]]
    );
}

#[test]
fn line_window_slides_until_the_last_vertex() {
    let list = numbered(3);
    let mut window = VertexLineStripBuffer { buf: &list, idx: 0 };
    assert_eq!(window.next().map(|g| names(&[g])), Some(vec![vec![0, 1]]));
    assert_eq!(window.idx, 1);
    assert_eq!(window.next().map(|g| names(&[g])), Some(vec![vec![1, 2]]));
    assert_eq!(window.idx, 2);
    assert!(window.next().is_none());
    assert_eq!(window.idx, 2);
    assert!(window.next().is_none());
}

#[test]
fn line_window_over_nothing_is_empty() {
    let list = numbered(0);
    let mut window = VertexLineStripBuffer { buf: &list, idx: 0 };
    assert!(window.next().is_none());
    assert_eq!(window.idx, 0);
}

#[test]
fn triangle_window_slides_until_the_last_vertex() {
    let list = numbered(4);
    let mut window = VertexTriangleStripBuffer { buf: &list, idx: 1 };
    assert_eq!(window.next().map(|g| names(&[g])), Some(vec![vec![0, 1, 2]]));
    assert_eq!(window.idx, 2);
    assert_eq!(window.next().map(|g| names(&[g])), Some(vec![vec![1, 2, 3]]));
    assert_eq!(window.idx, 3);
    assert!(window.next().is_none());
    assert_eq!(window.idx, 3);
}

#[test]
fn triangle_window_needs_a_vertex_before_its_middle() {
    let list = numbered(4);
    let mut window = VertexTriangleStripBuffer { buf: &list, idx: 0 };
    assert!(window.next().is_none());
    assert_eq!(window.idx, 0);
    let short = numbered(1);
    let mut window = VertexTriangleStripBuffer { buf: &short, idx: 1 };
    assert!(window.next().is_none());
}
