//! Stable insertion order: the exact sequence that inserting items one by
//! one, each after every item it does not precede, produces.
use vstd::prelude::*;

verus! {

/// The number of leading items of `s` that `x` does not precede: where
/// inserting `x` after its equals puts it.
pub open spec fn insertion_point<A>(s: Seq<A>, x: A, less: spec_fn(A, A) -> bool) -> nat
    decreases s.len(),
{
    if s.len() > 0 && !less(x, s[0]) {
        1 + insertion_point(s.drop_first(), x, less)
    } else {
        0
    }
}

/// `s` ordered by `less`, equal items keeping their order in `s`.
pub open spec fn insertion_sorted<A>(s: Seq<A>, less: spec_fn(A, A) -> bool) -> Seq<A>
    decreases s.len(),
{
    if s.len() == 0 {
        s
    } else {
        let sorted = insertion_sorted(s.drop_last(), less);
        sorted.insert(insertion_point(sorted, s.last(), less) as int, s.last())
    }
}

/// The first position at which `x` precedes the item, when every earlier
/// item is not preceded by `x`, is the insertion point.
pub proof fn lemma_insertion_point<A>(s: Seq<A>, x: A, less: spec_fn(A, A) -> bool, p: int)
    requires
        0 <= p <= s.len(),
        forall|k: int| 0 <= k < p ==> !less(x, #[trigger] s[k]),
        p == s.len() || less(x, s[p]),
    ensures
        insertion_point(s, x, less) == p,
    decreases p,
{
    if p > 0 {
        let rest = s.drop_first();
        assert(!less(x, s[0]));
        assert forall|k: int| 0 <= k < p - 1 implies !less(x, #[trigger] rest[k]) by {
            assert(rest[k] == s[k + 1]);
        }
        if p < s.len() {
            assert(rest[p - 1] == s[p]);
        }
        lemma_insertion_point(rest, x, less, p - 1);
    }
}

/// One more step of the sort: sorting a sequence extended by `x` inserts
/// `x` into the sorted prefix.
pub proof fn lemma_insertion_sorted_push<A>(s: Seq<A>, x: A, less: spec_fn(A, A) -> bool)
    ensures
        insertion_sorted(s.push(x), less) == insertion_sorted(s, less).insert(
            insertion_point(insertion_sorted(s, less), x, less) as int,
            x,
        ),
{
    assert(s.push(x).drop_last() =~= s);
}

} // verus!
