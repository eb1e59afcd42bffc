//! Grouping a vertex list into segments and triangles.
//!
//! A list is read either in disjoint chunks (vertices 0 and 1, then 2 and 3,
//! and so on, what is left over at the end being dropped) or through a window
//! that slides one vertex at a time (0 and 1, then 1 and 2, and so on).

use vstd::prelude::*;
use crate::Vertex;

verus! {

/// The disjoint chunks of `n` consecutive vertices of `v`, in order. Vertices
/// left over at the end belong to no chunk.
pub open spec fn chunks_of(v: Seq<Vertex>, n: int) -> Seq<Seq<Vertex>> {
    Seq::new((v.len() as int / n) as nat, |i: int| v.subrange(n * i, n * i + n))
}

/// Every run of `n` consecutive vertices of `v`, in order. A list shorter
/// than `n` has none.
pub open spec fn windows_of(v: Seq<Vertex>, n: int) -> Seq<Seq<Vertex>> {
    Seq::new(
        if v.len() >= n {
            (v.len() - n + 1) as nat
        } else {
            0nat
        },
        |i: int| v.subrange(i, i + n),
    )
}

/// The pairs that close `v` into a loop: every two neighbours, then the last
/// vertex with the first. A single vertex is paired with itself; an empty
/// list has no pairs.
pub open spec fn loop_windows(v: Seq<Vertex>) -> Seq<Seq<Vertex>> {
    if v.len() == 0 {
        Seq::empty()
    } else {
        windows_of(v.push(v[0]), 2)
    }
}

/// The vertex sequences that a list of pairs stands for.
pub open spec fn pair_views(groups: Seq<[Vertex; 2]>) -> Seq<Seq<Vertex>> {
    groups.map_values(|g: [Vertex; 2]| g@)
}

/// The vertex sequences that a list of triplets stands for.
pub open spec fn triplet_views(groups: Seq<[Vertex; 3]>) -> Seq<Seq<Vertex>> {
    groups.map_values(|g: [Vertex; 3]| g@)
}

/// Cuts `vbuf` into disjoint pairs. A last vertex without a partner is
/// dropped.
pub fn pairs(vbuf: &[Vertex]) -> (groups: Vec<[Vertex; 2]>)
    ensures
        pair_views(groups@) == chunks_of(vbuf@, 2),
{
    let mut groups: Vec<[Vertex; 2]> = Vec::new();
    let n = vbuf.len() / 2;
    let mut i: usize = 0;
    while i < n
        invariant
            i <= n,
            n == vbuf@.len() / 2,
            vbuf@.len() <= usize::MAX,
            groups@.len() == i,
            forall|j: int|
                0 <= j < i ==> (#[trigger] groups@[j])@ == vbuf@.subrange(2 * j, 2 * j + 2),
        decreases n - i,
    {
        let pair = [vbuf[2 * i], vbuf[2 * i + 1]];
        assert(pair@ =~= vbuf@.subrange(2 * i, 2 * i + 2));
        groups.push(pair);
        i += 1;
    }
    assert(pair_views(groups@) =~= chunks_of(vbuf@, 2));
    groups
}

/// Cuts `vbuf` into disjoint triplets. One or two vertices left over at the
/// end are dropped.
pub fn triplets(vbuf: &[Vertex]) -> (groups: Vec<[Vertex; 3]>)
    ensures
        triplet_views(groups@) == chunks_of(vbuf@, 3),
{
    let mut groups: Vec<[Vertex; 3]> = Vec::new();
    let n = vbuf.len() / 3;
    let mut i: usize = 0;
    while i < n
        invariant
            i <= n,
            n == vbuf@.len() / 3,
            vbuf@.len() <= usize::MAX,
            groups@.len() == i,
            forall|j: int|
                0 <= j < i ==> (#[trigger] groups@[j])@ == vbuf@.subrange(3 * j, 3 * j + 3),
        decreases n - i,
    {
        let triplet = [vbuf[3 * i], vbuf[3 * i + 1], vbuf[3 * i + 2]];
        assert(triplet@ =~= vbuf@.subrange(3 * i, 3 * i + 3));
        groups.push(triplet);
        i += 1;
    }
    assert(triplet_views(groups@) =~= chunks_of(vbuf@, 3));
    groups
}

/// A window of two vertices that slides over a vertex list.
pub struct VertexLineStripBuffer<'a> {
    /// The list that the window slides over.
    pub buf: &'a [Vertex],
    /// Index of the first vertex of the next window.
    pub idx: usize,
}

impl<'a> VertexLineStripBuffer<'a> {
    /// Hands out the next pair of neighbours and moves one vertex on, or
    /// `None` once the last vertex has been the second of a pair.
    pub fn next(&mut self) -> (item: Option<[Vertex; 2]>)
        ensures
            final(self).buf == old(self).buf,
            old(self).idx + 1 < old(self).buf@.len() ==> item.is_some() && item.unwrap()@
                == old(self).buf@.subrange(old(self).idx as int, old(self).idx + 2)
                && final(self).idx == old(self).idx + 1,
            old(self).idx + 1 >= old(self).buf@.len() ==> item.is_none() && final(self).idx == old(
                self,
            ).idx,
    {
        if self.buf.len() >= 1 && self.idx < self.buf.len() - 1 {
            self.idx += 1;
            let pair = [self.buf[self.idx - 1], self.buf[self.idx]];
            assert(pair@ =~= old(self).buf@.subrange(old(self).idx as int, old(self).idx + 2));
            Some(pair)
        } else {
            None
        }
    }
}

/// A window of three vertices that slides over a vertex list.
pub struct VertexTriangleStripBuffer<'a> {
    /// The list that the window slides over.
    pub buf: &'a [Vertex],
    /// Index of the middle vertex of the next window.
    pub idx: usize,
}

impl<'a> VertexTriangleStripBuffer<'a> {
    /// Hands out the next three neighbours and moves one vertex on, or `None`
    /// once the last vertex has been the third of a triplet. The window
    /// starts with `idx` at 1; with `idx` at 0 there is no vertex before the
    /// middle one, and nothing is handed out.
    pub fn next(&mut self) -> (item: Option<[Vertex; 3]>)
        ensures
            final(self).buf == old(self).buf,
            1 <= old(self).idx && old(self).idx + 1 < old(self).buf@.len() ==> item.is_some()
                && item.unwrap()@ == old(self).buf@.subrange(old(self).idx - 1, old(self).idx + 2)
                && final(self).idx == old(self).idx + 1,
            !(1 <= old(self).idx && old(self).idx + 1 < old(self).buf@.len()) ==> item.is_none()
                && final(self).idx == old(self).idx,
    {
        if self.idx >= 1 && self.buf.len() >= 1 && self.idx < self.buf.len() - 1 {
            self.idx += 1;
            let triplet = [self.buf[self.idx - 2], self.buf[self.idx - 1], self.buf[self.idx]];
            assert(triplet@ =~= old(self).buf@.subrange(old(self).idx - 1, old(self).idx + 2));
            Some(triplet)
        } else {
            None
        }
    }
}

/// Every pair of neighbours of `vbuf`, in order.
pub fn strip_pairs(vbuf: &[Vertex]) -> (groups: Vec<[Vertex; 2]>)
    ensures
        pair_views(groups@) == windows_of(vbuf@, 2),
{
    let mut v_stripbuf = VertexLineStripBuffer { buf: vbuf, idx: 0 };
    let mut groups: Vec<[Vertex; 2]> = Vec::new();
    loop
        invariant_except_break
            v_stripbuf.buf == vbuf,
            groups@.len() == v_stripbuf.idx,
            v_stripbuf.idx + 1 <= vbuf@.len() || (v_stripbuf.idx == 0 && vbuf@.len() == 0),
            forall|j: int|
                0 <= j < groups@.len() ==> (#[trigger] groups@[j])@ == vbuf@.subrange(j, j + 2),
        ensures
            pair_views(groups@) == windows_of(vbuf@, 2),
        decreases vbuf@.len() - v_stripbuf.idx,
    {
        match v_stripbuf.next() {
            Some(pair) => {
                groups.push(pair);
            },
            None => {
                assert(pair_views(groups@) =~= windows_of(vbuf@, 2));
                break;
            },
        }
    }
    groups
}

/// Every three neighbours of `vbuf`, in order.
pub fn strip_triplets(vbuf: &[Vertex]) -> (groups: Vec<[Vertex; 3]>)
    ensures
        triplet_views(groups@) == windows_of(vbuf@, 3),
{
    let mut v_stripbuf = VertexTriangleStripBuffer { buf: vbuf, idx: 1 };
    let mut groups: Vec<[Vertex; 3]> = Vec::new();
    loop
        invariant_except_break
            v_stripbuf.buf == vbuf,
            groups@.len() + 1 == v_stripbuf.idx,
            v_stripbuf.idx + 1 <= vbuf@.len() || (v_stripbuf.idx == 1 && vbuf@.len() < 2),
            forall|j: int|
                0 <= j < groups@.len() ==> (#[trigger] groups@[j])@ == vbuf@.subrange(j, j + 3),
        ensures
            triplet_views(groups@) == windows_of(vbuf@, 3),
        decreases vbuf@.len() - v_stripbuf.idx,
    {
        match v_stripbuf.next() {
            Some(triplet) => {
                groups.push(triplet);
            },
            None => {
                assert(triplet_views(groups@) =~= windows_of(vbuf@, 3));
                break;
            },
        }
    }
    groups
}

/// The pairs that close `vbuf` into a loop: every pair of neighbours, then
/// the last vertex with the first.
pub fn loop_pairs(vbuf: &[Vertex]) -> (groups: Vec<[Vertex; 2]>)
    ensures
        pair_views(groups@) == loop_windows(vbuf@),
{
    if vbuf.len() == 0 {
        let groups: Vec<[Vertex; 2]> = Vec::new();
        assert(pair_views(groups@) =~= loop_windows(vbuf@));
        return groups;
    }
    let mut looped_buffer: Vec<Vertex> = Vec::new();
    let mut i: usize = 0;
    while i < vbuf.len()
        invariant
            i <= vbuf@.len(),
            looped_buffer@ == vbuf@.take(i as int),
        decreases vbuf@.len() - i,
    {
        looped_buffer.push(vbuf[i]);
        assert(looped_buffer@ == vbuf@.take(i + 1));
        i += 1;
    }
    assert(vbuf@.take(i as int) == vbuf@);
    looped_buffer.push(vbuf[0]);
    strip_pairs(looped_buffer.as_slice())
}

} // verus!
