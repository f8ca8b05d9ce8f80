//! Order-preserving subsequences, where each kept element may stand in a
//! relation to the element it came from.
use vstd::prelude::*;

verus! {

/// `small` arises from `large` by dropping elements, keeping order, each kept
/// element related by `rel` to the element it stands for.
pub open spec fn subseq_by<A, B>(small: Seq<A>, large: Seq<B>, rel: spec_fn(A, B) -> bool) -> bool
    decreases large.len(),
{
    if large.len() == 0 {
        small.len() == 0
    } else {
        ||| (small.len() > 0 && rel(small.last(), large.last()) && subseq_by(
            small.drop_last(),
            large.drop_last(),
            rel,
        ))
        ||| subseq_by(small, large.drop_last(), rel)
    }
}

/// `small` arises from `large` by dropping elements and keeping order.
pub open spec fn subseq<A>(small: Seq<A>, large: Seq<A>) -> bool {
    subseq_by(small, large, |x: A, y: A| x == y)
}

/// Every kept element stands for some element of `large`.
pub proof fn lemma_subseq_elements<A, B>(small: Seq<A>, large: Seq<B>, rel: spec_fn(A, B) -> bool)
    requires
        subseq_by(small, large, rel),
    ensures
        small.len() <= large.len(),
        forall|i: int|
            0 <= i < small.len() ==> exists|j: int| 0 <= j < large.len() && rel(#[trigger] small[i], large[j]),
    decreases large.len(),
{
    if large.len() > 0 {
        if small.len() > 0 && rel(small.last(), large.last()) && subseq_by(
            small.drop_last(),
            large.drop_last(),
            rel,
        ) {
            lemma_subseq_elements(small.drop_last(), large.drop_last(), rel);
            assert forall|i: int| 0 <= i < small.len() implies exists|j: int|
                0 <= j < large.len() && rel(#[trigger] small[i], large[j]) by {
                if i == small.len() - 1 {
                    assert(rel(small[i], large[large.len() - 1]));
                } else {
                    assert(small[i] == small.drop_last()[i]);
                    let j = choose|j: int|
                        0 <= j < large.drop_last().len() && rel(small.drop_last()[i], large.drop_last()[j]);
                    assert(large[j] == large.drop_last()[j]);
                }
            }
        } else {
            lemma_subseq_elements(small, large.drop_last(), rel);
            assert forall|i: int| 0 <= i < small.len() implies exists|j: int|
                0 <= j < large.len() && rel(#[trigger] small[i], large[j]) by {
                let j = choose|j: int| 0 <= j < large.drop_last().len() && rel(small[i], large.drop_last()[j]);
                assert(large[j] == large.drop_last()[j]);
            }
        }
    }
}

/// Kept elements `i` and `k` stand for elements `j < l` of `large`.
pub open spec fn stands_for_pair<A, B>(
    small: Seq<A>,
    large: Seq<B>,
    rel: spec_fn(A, B) -> bool,
    i: int,
    k: int,
) -> bool {
    exists|j: int, l: int|
        0 <= j < l < large.len() && rel(small[i], #[trigger] large[j]) && rel(
            small[k],
            #[trigger] large[l],
        )
}

/// Two kept elements stand for two elements of `large` in the same order.
pub proof fn lemma_subseq_pairs<A, B>(small: Seq<A>, large: Seq<B>, rel: spec_fn(A, B) -> bool)
    requires
        subseq_by(small, large, rel),
    ensures
        forall|i: int, k: int|
            0 <= i < k < small.len() ==> #[trigger] stands_for_pair(small, large, rel, i, k),
    decreases large.len(),
{
    if large.len() > 0 {
        let sd = small.drop_last();
        let ld = large.drop_last();
        if small.len() > 0 && rel(small.last(), large.last()) && subseq_by(sd, ld, rel) {
            lemma_subseq_pairs(sd, ld, rel);
            lemma_subseq_elements(sd, ld, rel);
            assert forall|i: int, k: int| 0 <= i < k < small.len() implies #[trigger] stands_for_pair(
                small,
                large,
                rel,
                i,
                k,
            ) by {
                assert(small[i] == sd[i]);
                if k == small.len() - 1 {
                    let j = choose|j: int| 0 <= j < ld.len() && rel(sd[i], ld[j]);
                    assert(large[j] == ld[j]);
                    assert(rel(small[k], large[large.len() - 1]));
                } else {
                    assert(small[k] == sd[k]);
                    assert(stands_for_pair(sd, ld, rel, i, k));
                    let (j, l) = choose|j: int, l: int|
                        0 <= j < l < ld.len() && rel(sd[i], ld[j]) && rel(sd[k], ld[l]);
                    assert(large[j] == ld[j]);
                    assert(large[l] == ld[l]);
                }
            }
        } else {
            lemma_subseq_pairs(small, ld, rel);
            assert forall|i: int, k: int| 0 <= i < k < small.len() implies #[trigger] stands_for_pair(
                small,
                large,
                rel,
                i,
                k,
            ) by {
                assert(stands_for_pair(small, ld, rel, i, k));
                let (j, l) = choose|j: int, l: int|
                    0 <= j < l < ld.len() && rel(small[i], ld[j]) && rel(small[k], ld[l]);
                assert(large[j] == ld[j]);
                assert(large[l] == ld[l]);
            }
        }
    }
}

/// Subsequences of the two halves form a subsequence of the whole.
pub proof fn lemma_subseq_concat<A, B>(
    small1: Seq<A>,
    large1: Seq<B>,
    small2: Seq<A>,
    large2: Seq<B>,
    rel: spec_fn(A, B) -> bool,
)
    requires
        subseq_by(small1, large1, rel),
        subseq_by(small2, large2, rel),
    ensures
        subseq_by(small1 + small2, large1 + large2, rel),
    decreases large2.len(),
{
    if large2.len() == 0 {
        assert(small1 + small2 =~= small1);
        assert(large1 + large2 =~= large1);
    } else {
        assert((large1 + large2).drop_last() =~= large1 + large2.drop_last());
        assert((large1 + large2).last() == large2.last());
        if small2.len() > 0 && rel(small2.last(), large2.last()) && subseq_by(
            small2.drop_last(),
            large2.drop_last(),
            rel,
        ) {
            lemma_subseq_concat(small1, large1, small2.drop_last(), large2.drop_last(), rel);
            assert((small1 + small2).drop_last() =~= small1 + small2.drop_last());
            assert((small1 + small2).last() == small2.last());
        } else {
            lemma_subseq_concat(small1, large1, small2, large2.drop_last(), rel);
        }
    }
}

/// Mapping both sides by functions that agree on related elements keeps a
/// subsequence.
pub proof fn lemma_subseq_map<A, B, C>(
    small: Seq<A>,
    large: Seq<B>,
    rel: spec_fn(A, B) -> bool,
    f: spec_fn(A) -> C,
    g: spec_fn(B) -> C,
)
    requires
        subseq_by(small, large, rel),
        forall|x: A, y: B| #[trigger] rel(x, y) ==> f(x) == g(y),
    ensures
        subseq(small.map_values(f), large.map_values(g)),
    decreases large.len(),
{
    let ms = small.map_values(f);
    let ml = large.map_values(g);
    if large.len() > 0 {
        assert(ml.drop_last() =~= large.drop_last().map_values(g));
        if small.len() > 0 && rel(small.last(), large.last()) && subseq_by(
            small.drop_last(),
            large.drop_last(),
            rel,
        ) {
            lemma_subseq_map(small.drop_last(), large.drop_last(), rel, f, g);
            assert(ms.drop_last() =~= small.drop_last().map_values(f));
            assert(ms.last() == ml.last());
        } else {
            lemma_subseq_map(small, large.drop_last(), rel, f, g);
        }
    }
}

/// A subsequence of a sequence without duplicates has none.
pub proof fn lemma_subseq_no_duplicates<A>(small: Seq<A>, large: Seq<A>)
    requires
        subseq(small, large),
        large.no_duplicates(),
    ensures
        small.no_duplicates(),
        forall|x: A| small.contains(x) ==> large.contains(x),
{
    let rel = |x: A, y: A| x == y;
    lemma_subseq_pairs(small, large, rel);
    lemma_subseq_elements(small, large, rel);
    assert forall|i: int, k: int| 0 <= i < small.len() && 0 <= k < small.len() && i != k implies small[i]
        != small[k] by {
        if i < k {
            assert(stands_for_pair(small, large, rel, i, k));
            let (j, l) = choose|j: int, l: int|
                0 <= j < l < large.len() && rel(small[i], large[j]) && rel(small[k], large[l]);
        } else {
            assert(stands_for_pair(small, large, rel, k, i));
            let (j, l) = choose|j: int, l: int|
                0 <= j < l < large.len() && rel(small[k], large[j]) && rel(small[i], large[l]);
        }
    }
    assert forall|x: A| small.contains(x) implies large.contains(x) by {
        let i = choose|i: int| 0 <= i < small.len() && small[i] == x;
        let j = choose|j: int| 0 <= j < large.len() && rel(small[i], large[j]);
    }
}

/// A sequence is a subsequence of itself under any relation that holds of
/// each element with itself.
pub proof fn lemma_subseq_reflexive<A>(s: Seq<A>, rel: spec_fn(A, A) -> bool)
    requires
        forall|i: int| 0 <= i < s.len() ==> rel(#[trigger] s[i], s[i]),
    ensures
        subseq_by(s, s, rel),
    decreases s.len(),
{
    if s.len() > 0 {
        lemma_subseq_reflexive(s.drop_last(), rel);
        assert(rel(s.last(), s.last()));
    }
}

/// Elementwise related sequences of one length are subsequences.
pub proof fn lemma_subseq_pointwise<A, B>(small: Seq<A>, large: Seq<B>, rel: spec_fn(A, B) -> bool)
    requires
        small.len() == large.len(),
        forall|i: int| 0 <= i < small.len() ==> rel(#[trigger] small[i], large[i]),
    ensures
        subseq_by(small, large, rel),
    decreases large.len(),
{
    if large.len() > 0 {
        lemma_subseq_pointwise(small.drop_last(), large.drop_last(), rel);
        assert(rel(small.last(), large.last()));
    }
}

/// Dropping one element leaves a subsequence.
pub proof fn lemma_subseq_remove<A>(s: Seq<A>, index: int)
    requires
        0 <= index < s.len(),
    ensures
        subseq(s.remove(index), s),
    decreases s.len(),
{
    let rel = |x: A, y: A| x == y;
    if index == s.len() - 1 {
        assert(s.remove(index) =~= s.drop_last());
        lemma_subseq_reflexive(s.drop_last(), rel);
    } else {
        lemma_subseq_remove(s.drop_last(), index);
        assert(s.remove(index).drop_last() =~= s.drop_last().remove(index));
        assert(s.remove(index).last() == s.last());
    }
}

/// A subsequence under one relation is one under any weaker relation on
/// the elements of `large` that satisfy `holds`.
pub proof fn lemma_subseq_weaken<A, B>(
    small: Seq<A>,
    large: Seq<B>,
    rel: spec_fn(A, B) -> bool,
    weaker: spec_fn(A, B) -> bool,
    holds: spec_fn(B) -> bool,
)
    requires
        subseq_by(small, large, rel),
        forall|i: int| 0 <= i < large.len() ==> holds(#[trigger] large[i]),
        forall|x: A, y: B| #[trigger] rel(x, y) && holds(y) ==> weaker(x, y),
    ensures
        subseq_by(small, large, weaker),
    decreases large.len(),
{
    if large.len() > 0 {
        assert(holds(large[large.len() - 1]));
        assert forall|i: int| 0 <= i < large.drop_last().len() implies holds(
            #[trigger] large.drop_last()[i],
        ) by {
            assert(large.drop_last()[i] == large[i]);
        }
        if small.len() > 0 && rel(small.last(), large.last()) && subseq_by(
            small.drop_last(),
            large.drop_last(),
            rel,
        ) {
            lemma_subseq_weaken(small.drop_last(), large.drop_last(), rel, weaker, holds);
        } else {
            lemma_subseq_weaken(small, large.drop_last(), rel, weaker, holds);
        }
    }
}

/// Two sequences without duplicates and without a common element join into
/// one without duplicates, and conversely.
pub proof fn lemma_concat_no_duplicates<A>(a: Seq<A>, b: Seq<A>)
    ensures
        (a + b).no_duplicates() <==> (a.no_duplicates() && b.no_duplicates() && forall|x: A|
            !(a.contains(x) && b.contains(x))),
{
    let c = a + b;
    if c.no_duplicates() {
        assert forall|i: int, j: int| 0 <= i < a.len() && 0 <= j < a.len() && i != j implies a[i]
            != a[j] by {
            assert(c[i] == a[i] && c[j] == a[j]);
        }
        assert forall|i: int, j: int| 0 <= i < b.len() && 0 <= j < b.len() && i != j implies b[i]
            != b[j] by {
            assert(c[a.len() + i] == b[i] && c[a.len() + j] == b[j]);
        }
        assert forall|x: A| !(a.contains(x) && b.contains(x)) by {
            if a.contains(x) && b.contains(x) {
                let i = choose|i: int| 0 <= i < a.len() && a[i] == x;
                let j = choose|j: int| 0 <= j < b.len() && b[j] == x;
                assert(c[i] == x && c[a.len() + j] == x);
            }
        }
    }
    if a.no_duplicates() && b.no_duplicates() && forall|x: A| !(a.contains(x) && b.contains(x)) {
        assert forall|i: int, j: int| 0 <= i < c.len() && 0 <= j < c.len() && i != j implies c[i]
            != c[j] by {
            if i < a.len() && j < a.len() {
                assert(c[i] == a[i] && c[j] == a[j]);
            } else if i >= a.len() && j >= a.len() {
                assert(c[i] == b[i - a.len()] && c[j] == b[j - a.len()]);
            } else if i < a.len() {
                assert(c[i] == a[i] && c[j] == b[j - a.len()]);
                assert(a.contains(a[i]));
                assert(b.contains(b[j - a.len()]));
            } else {
                assert(c[j] == a[j] && c[i] == b[i - a.len()]);
                assert(a.contains(a[j]));
                assert(b.contains(b[i - a.len()]));
            }
        }
    }
}

} // verus!
