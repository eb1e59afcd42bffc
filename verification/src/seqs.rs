//! Facts about sequences that the other modules share.

use vstd::prelude::*;
use vstd::seq_lib::lemma_flatten_concat;

verus! {

/// Flattening after appending one more sequence appends its elements.
pub proof fn lemma_flatten_push<A>(s: Seq<Seq<A>>, last: Seq<A>)
    ensures
        s.push(last).flatten() == s.flatten() + last,
{
    lemma_flatten_concat(s, seq![last]);
    seq![last].lemma_flatten_one_element();
    assert(s.push(last) =~= s + seq![last]);
}

/// An element lies in a flattened list exactly when it lies in one of the
/// lists.
pub proof fn lemma_flatten_contains<A>(ss: Seq<Seq<A>>, x: A)
    ensures
        ss.flatten().contains(x) <==> exists|i: int|
            0 <= i < ss.len() && (#[trigger] ss[i]).contains(x),
    decreases ss.len(),
{
    if ss.len() == 0 {
        assert(!ss.flatten().contains(x));
    } else {
        let head = ss.first();
        let tail = ss.drop_first();
        lemma_flatten_contains(tail, x);
        assert(ss.flatten() == head + tail.flatten());
        if ss.flatten().contains(x) {
            let j = choose|j: int| 0 <= j < ss.flatten().len() && ss.flatten()[j] == x;
            if j < head.len() {
                assert(head[j] == x);
                assert(ss[0].contains(x));
            } else {
                assert(tail.flatten()[j - head.len()] == x);
                assert(tail.flatten().contains(x));
                let i = choose|i: int| 0 <= i < tail.len() && (#[trigger] tail[i]).contains(x);
                assert(ss[i + 1].contains(x));
            }
        }
        if exists|i: int| 0 <= i < ss.len() && (#[trigger] ss[i]).contains(x) {
            let i = choose|i: int| 0 <= i < ss.len() && (#[trigger] ss[i]).contains(x);
            if i == 0 {
                let j = choose|j: int| 0 <= j < head.len() && head[j] == x;
                assert((head + tail.flatten())[j] == x);
            } else {
                assert(tail[i - 1].contains(x));
                assert(tail.flatten().contains(x));
                let j = choose|j: int| 0 <= j < tail.flatten().len() && tail.flatten()[j] == x;
                assert((head + tail.flatten())[head.len() + j] == x);
            }
        }
    }
}

/// The elements of a list followed by another are those of either.
pub proof fn lemma_to_set_add<A>(a: Seq<A>, b: Seq<A>)
    ensures
        (a + b).to_set() == a.to_set().union(b.to_set()),
{
    assert forall|x: A| (a + b).contains(x) <==> a.contains(x) || b.contains(x) by {
        if a.contains(x) {
            let i = choose|i: int| 0 <= i < a.len() && a[i] == x;
            assert((a + b)[i] == x);
        }
        if b.contains(x) {
            let i = choose|i: int| 0 <= i < b.len() && b[i] == x;
            assert((a + b)[a.len() + i] == x);
        }
        if (a + b).contains(x) {
            let i = choose|i: int| 0 <= i < (a + b).len() && (a + b)[i] == x;
            if i < a.len() {
                assert(a[i] == x);
            } else {
                assert(b[i - a.len()] == x);
            }
        }
    }
    assert((a + b).to_set() =~= a.to_set().union(b.to_set()));
}

/// A list whose elements all satisfy a predicate is left as it is by a filter
/// on that predicate.
pub proof fn lemma_filter_all<A>(s: Seq<A>, pred: spec_fn(A) -> bool)
    requires
        forall|i: int| 0 <= i < s.len() ==> pred(#[trigger] s[i]),
    ensures
        s.filter(pred) == s,
    decreases s.len(),
{
    reveal(Seq::filter);
    if s.len() > 0 {
        lemma_filter_all(s.drop_last(), pred);
        assert(s.drop_last().push(s.last()) =~= s);
    }
}

} // verus!
