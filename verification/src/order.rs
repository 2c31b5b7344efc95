//! Sequences with some of their elements left out.

use vstd::prelude::*;

verus! {

/// `at` says where the elements of `part` stand in `whole`, from front to back.
pub open spec fn stand_at<T>(part: Seq<T>, whole: Seq<T>, at: Seq<int>) -> bool {
    &&& at.len() == part.len()
    &&& forall|k: int| 0 <= k < at.len() ==> 0 <= #[trigger] at[k] < whole.len()
    &&& forall|k: int, l: int| 0 <= k < l < at.len() ==> #[trigger] at[k] < #[trigger] at[l]
    &&& forall|k: int| 0 <= k < at.len() ==> part[k] == whole[#[trigger] at[k]]
}

/// `part` is `whole` with some elements left out.
pub open spec fn in_order<T>(part: Seq<T>, whole: Seq<T>) -> bool {
    exists|at: Seq<int>| #[trigger] stand_at(part, whole, at)
}

/// Leaving out nothing.
pub proof fn lemma_in_order_self<T>(s: Seq<T>)
    ensures
        in_order(s, s),
{
    assert(stand_at(s, s, Seq::new(s.len(), |k: int| k)));
}

/// Leaving out more of what has some left out.
pub proof fn lemma_in_order_trans<T>(a: Seq<T>, b: Seq<T>, c: Seq<T>)
    requires
        in_order(a, b),
        in_order(b, c),
    ensures
        in_order(a, c),
{
    let x = choose|at: Seq<int>| #[trigger] stand_at(a, b, at);
    let y = choose|at: Seq<int>| #[trigger] stand_at(b, c, at);
    let z = Seq::new(a.len(), |k: int| y[x[k]]);
    assert(stand_at(a, c, z));
}

/// Leaving out the last element too.
pub proof fn lemma_in_order_skip<T>(part: Seq<T>, whole: Seq<T>)
    requires
        whole.len() > 0,
        in_order(part, whole.drop_last()),
    ensures
        in_order(part, whole),
{
    let at = choose|at: Seq<int>| #[trigger] stand_at(part, whole.drop_last(), at);
    assert(stand_at(part, whole, at));
}

/// Keeping the last element.
pub proof fn lemma_in_order_keep<T>(part: Seq<T>, whole: Seq<T>)
    requires
        whole.len() > 0,
        in_order(part, whole.drop_last()),
    ensures
        in_order(part.push(whole.last()), whole),
{
    let at = choose|at: Seq<int>| #[trigger] stand_at(part, whole.drop_last(), at);
    assert(stand_at(part.push(whole.last()), whole, at.push(whole.len() - 1)));
}

/// Filtering leaves the order as it is.
pub proof fn lemma_filter_in_order<T>(s: Seq<T>, pred: spec_fn(T) -> bool)
    ensures
        in_order(s.filter(pred), s),
    decreases s.len(),
{
    reveal(Seq::filter);
    if s.len() == 0 {
        lemma_in_order_self(s);
    } else {
        lemma_filter_in_order(s.drop_last(), pred);
        if pred(s.last()) {
            lemma_in_order_keep(s.drop_last().filter(pred), s);
        } else {
            lemma_in_order_skip(s.drop_last().filter(pred), s);
        }
    }
}

} // verus!
