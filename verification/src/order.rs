//! Index tuples that stand for subsets, and the lexicographic order on them.

use vstd::prelude::*;

verus! {

/// `picks` chooses `k` indices out of `lo..hi`, smallest first and none twice.
pub open spec fn is_combination_within(picks: Seq<int>, lo: int, hi: int, k: nat) -> bool {
    &&& picks.len() == k
    &&& forall|i: int| 0 <= i < picks.len() ==> lo <= #[trigger] picks[i] < hi
    &&& forall|i: int, j: int| 0 <= i < j < picks.len() ==> picks[i] < picks[j]
}

/// `picks` chooses `r` indices out of a pool of `n`, smallest first and none twice.
pub open spec fn is_combination(picks: Seq<int>, n: nat, r: nat) -> bool {
    is_combination_within(picks, 0, n as int, r)
}

/// `a` and `b` agree before position `k`, where `a` holds the smaller index.
pub open spec fn precedes_at(a: Seq<int>, b: Seq<int>, k: int) -> bool {
    &&& 0 <= k < a.len()
    &&& k < b.len()
    &&& forall|j: int| 0 <= j < k ==> a[j] == b[j]
    &&& a[k] < b[k]
}

/// `a` comes before `b` in lexicographic order: at the first position where
/// they differ, `a` holds the smaller index.
pub open spec fn lex_less(a: Seq<int>, b: Seq<int>) -> bool {
    exists|k: int| #[trigger] precedes_at(a, b, k)
}

/// Each entry of `all` comes before every later one.
pub open spec fn lex_ascending(all: Seq<Seq<int>>) -> bool {
    forall|i: int, j: int| 0 <= i < j < all.len() ==> lex_less(#[trigger] all[i], #[trigger] all[j])
}

/// No tuple comes before itself.
pub proof fn lemma_lex_irreflexive(a: Seq<int>)
    ensures
        !lex_less(a, a),
{
}

/// Of two tuples, at most one comes before the other.
pub proof fn lemma_lex_asymmetric(a: Seq<int>, b: Seq<int>)
    requires
        lex_less(a, b),
    ensures
        !lex_less(b, a),
{
    let k = choose|k: int| precedes_at(a, b, k);
    if lex_less(b, a) {
        let m = choose|m: int| precedes_at(b, a, m);
        if k < m {
            assert(b[k] == a[k]);
        } else if m < k {
            assert(a[m] == b[m]);
        }
    }
}

/// An ascending list holds no tuple twice.
pub proof fn lemma_ascending_distinct(all: Seq<Seq<int>>)
    requires
        lex_ascending(all),
    ensures
        forall|i: int, j: int| 0 <= i < j < all.len() ==> all[i] != all[j],
{
    assert forall|i: int, j: int| 0 <= i < j < all.len() implies all[i] != all[j] by {
        assert(lex_less(all[i], all[j]));
        lemma_lex_irreflexive(all[i]);
    }
}

} // verus!
