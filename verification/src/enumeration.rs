//! The subsets of a pool as a sequence of index tuples in lexicographic order.

use vstd::prelude::*;
use crate::binomial::binomial;
use crate::order::{
    is_combination,
    is_combination_within,
    lemma_ascending_distinct,
    lemma_lex_asymmetric,
    lex_ascending,
    lex_less,
    precedes_at,
};

verus! {

/// Each tuple of `tails` with `first` put in front.
pub open spec fn prepend_each(first: int, tails: Seq<Seq<int>>) -> Seq<Seq<int>> {
    Seq::new(tails.len(), |i: int| seq![first] + tails[i])
}

/// The ways to choose `k` indices out of `start..n`, in lexicographic order:
/// first those that begin with `start`, then those that do not.
pub open spec fn combinations_from(start: int, n: int, k: nat) -> Seq<Seq<int>>
    decreases k, n - start,
{
    if k == 0 {
        seq![Seq::<int>::empty()]
    } else if start >= n {
        Seq::<Seq<int>>::empty()
    } else {
        prepend_each(start, combinations_from(start + 1, n, (k - 1) as nat))
            + combinations_from(start + 1, n, k)
    }
}

/// The ways to choose `r` indices out of a pool of `n`, in lexicographic order.
pub open spec fn all_combinations(n: nat, r: nat) -> Seq<Seq<int>> {
    combinations_from(0, n as int, r)
}

/// `all` lists the ways to choose `r` indices out of a pool of `n`: every entry
/// is such a choice, the entries ascend in lexicographic order (so none occurs
/// twice), and no choice is missing.
pub open spec fn is_enumeration(all: Seq<Seq<int>>, n: nat, r: nat) -> bool {
    &&& forall|i: int| 0 <= i < all.len() ==> is_combination(#[trigger] all[i], n, r)
    &&& lex_ascending(all)
    &&& forall|picks: Seq<int>| is_combination(picks, n, r) ==> all.contains(picks)
}

/// The number of indices in `start..n`.
pub open spec fn span(start: int, n: int) -> nat {
    if start < n {
        (n - start) as nat
    } else {
        0
    }
}

/// With fewer indices left than are asked for, no choice exists.
pub proof fn lemma_combinations_from_too_few(start: int, n: int, k: nat)
    requires
        span(start, n) < k,
    ensures
        combinations_from(start, n, k).len() == 0,
    decreases k, n - start,
{
    if k > 0 && start < n {
        lemma_combinations_from_too_few(start + 1, n, (k - 1) as nat);
        lemma_combinations_from_too_few(start + 1, n, k);
    }
}

/// With at least as many indices left as are asked for, a choice exists.
pub proof fn lemma_combinations_from_enough(start: int, n: int, k: nat)
    requires
        span(start, n) >= k,
    ensures
        combinations_from(start, n, k).len() > 0,
    decreases k,
{
    if k > 0 {
        lemma_combinations_from_enough(start + 1, n, (k - 1) as nat);
    }
}

/// Every entry chooses `k` indices out of `start..n`.
pub proof fn lemma_combinations_from_sound(start: int, n: int, k: nat)
    ensures
        forall|i: int|
            0 <= i < combinations_from(start, n, k).len() ==> is_combination_within(
                #[trigger] combinations_from(start, n, k)[i],
                start,
                n,
                k,
            ),
    decreases k, n - start,
{
    let all = combinations_from(start, n, k);
    if k > 0 && start < n {
        let with = combinations_from(start + 1, n, (k - 1) as nat);
        let without = combinations_from(start + 1, n, k);
        lemma_combinations_from_sound(start + 1, n, (k - 1) as nat);
        lemma_combinations_from_sound(start + 1, n, k);
        assert forall|i: int| 0 <= i < all.len() implies is_combination_within(
            #[trigger] all[i],
            start,
            n,
            k,
        ) by {
            if i < with.len() {
                let tail = with[i];
                assert(is_combination_within(tail, start + 1, n, (k - 1) as nat));
                assert(all[i] == seq![start] + tail);
                assert forall|a: int, b: int| 0 <= a < b < all[i].len() implies all[i][a]
                    < all[i][b] by {
                    assert(all[i][b] == tail[b - 1]);
                    if a > 0 {
                        assert(all[i][a] == tail[a - 1]);
                    }
                }
                assert forall|a: int| 0 <= a < all[i].len() implies start <= #[trigger] all[i][a]
                    < n by {
                    if a > 0 {
                        assert(all[i][a] == tail[a - 1]);
                    }
                }
            } else {
                assert(all[i] == without[i - with.len()]);
                assert(is_combination_within(without[i - with.len()], start + 1, n, k));
            }
        }
    }
}

/// The entries ascend in lexicographic order.
pub proof fn lemma_combinations_from_ascending(start: int, n: int, k: nat)
    ensures
        lex_ascending(combinations_from(start, n, k)),
    decreases k, n - start,
{
    let all = combinations_from(start, n, k);
    if k > 0 && start < n {
        let with = combinations_from(start + 1, n, (k - 1) as nat);
        let without = combinations_from(start + 1, n, k);
        lemma_combinations_from_ascending(start + 1, n, (k - 1) as nat);
        lemma_combinations_from_ascending(start + 1, n, k);
        lemma_combinations_from_sound(start + 1, n, k);
        assert forall|i: int, j: int| 0 <= i < j < all.len() implies lex_less(
            #[trigger] all[i],
            #[trigger] all[j],
        ) by {
            if j < with.len() {
                assert(lex_less(with[i], with[j]));
                let d = choose|d: int| precedes_at(with[i], with[j], d);
                assert(all[i] == seq![start] + with[i]);
                assert(all[j] == seq![start] + with[j]);
                assert forall|m: int| 0 <= m < d + 1 implies all[i][m] == all[j][m] by {
                    if m > 0 {
                        assert(all[i][m] == with[i][m - 1]);
                        assert(all[j][m] == with[j][m - 1]);
                    }
                }
                assert(all[i][d + 1] == with[i][d]);
                assert(all[j][d + 1] == with[j][d]);
                assert(precedes_at(all[i], all[j], d + 1));
            } else if i < with.len() {
                let later = without[j - with.len()];
                assert(all[j] == later);
                assert(is_combination_within(later, start + 1, n, k));
                assert(all[i] == seq![start] + with[i]);
                assert(all[i][0] == start);
                assert(later[0] >= start + 1);
                assert(precedes_at(all[i], all[j], 0));
            } else {
                assert(all[i] == without[i - with.len()]);
                assert(all[j] == without[j - with.len()]);
                assert(lex_less(without[i - with.len()], without[j - with.len()]));
            }
        }
    }
}

/// No way to choose `k` indices out of `start..n` is missing.
pub proof fn lemma_combinations_from_complete(start: int, n: int, k: nat, picks: Seq<int>)
    requires
        is_combination_within(picks, start, n, k),
    ensures
        combinations_from(start, n, k).contains(picks),
    decreases k, n - start,
{
    let all = combinations_from(start, n, k);
    if k == 0 {
        assert(picks =~= Seq::<int>::empty());
        assert(all[0] == picks);
    } else if start >= n {
        assert(start <= picks[0] < n);
    } else {
        let with = combinations_from(start + 1, n, (k - 1) as nat);
        let without = combinations_from(start + 1, n, k);
        if picks[0] == start {
            let tail = picks.skip(1);
            assert forall|i: int| 0 <= i < tail.len() implies start + 1 <= #[trigger] tail[i]
                < n by {
                assert(tail[i] == picks[i + 1]);
                assert(picks[0] < picks[i + 1]);
            }
            assert forall|i: int, j: int| 0 <= i < j < tail.len() implies tail[i] < tail[j] by {
                assert(picks[i + 1] < picks[j + 1]);
            }
            lemma_combinations_from_complete(start + 1, n, (k - 1) as nat, tail);
            let at = choose|at: int| 0 <= at < with.len() && with[at] == tail;
            assert(all[at] == seq![start] + tail);
            assert(seq![start] + tail =~= picks);
        } else {
            assert forall|i: int| 0 <= i < picks.len() implies start + 1 <= #[trigger] picks[i]
                < n by {
                if i > 0 {
                    assert(picks[0] < picks[i]);
                }
            }
            lemma_combinations_from_complete(start + 1, n, k, picks);
            let at = choose|at: int| 0 <= at < without.len() && without[at] == picks;
            assert(all[with.len() + at] == picks);
        }
    }
}

/// There are as many entries as Pascal's rule counts.
pub proof fn lemma_combinations_from_count(start: int, n: int, k: nat)
    ensures
        combinations_from(start, n, k).len() == binomial(span(start, n), k),
    decreases k, n - start,
{
    if k > 0 && start < n {
        lemma_combinations_from_count(start + 1, n, (k - 1) as nat);
        lemma_combinations_from_count(start + 1, n, k);
        assert(span(start + 1, n) == span(start, n) - 1);
    }
}

/// The sequence `all_combinations(n, r)` lists the ways to choose `r` indices
/// out of `n`: each entry ascends strictly and stays below `n`, the entries
/// come in lexicographic order, none is missing, none occurs twice, and there
/// are `binomial(n, r)` of them.
pub proof fn lemma_all_combinations_enumerate(n: nat, r: nat)
    ensures
        is_enumeration(all_combinations(n, r), n, r),
        forall|i: int, j: int|
            0 <= i < j < all_combinations(n, r).len() ==> all_combinations(n, r)[i]
                != all_combinations(n, r)[j],
        all_combinations(n, r).len() == binomial(n, r),
{
    let all = all_combinations(n, r);
    lemma_combinations_from_sound(0, n as int, r);
    lemma_combinations_from_ascending(0, n as int, r);
    lemma_ascending_distinct(all);
    lemma_combinations_from_count(0, n as int, r);
    assert forall|picks: Seq<int>| is_combination(picks, n, r) implies all.contains(picks) by {
        lemma_combinations_from_complete(0, n as int, r, picks);
    }
}

/// Two ascending lists with the same entries are the same list.
pub proof fn lemma_ascending_unique(a: Seq<Seq<int>>, b: Seq<Seq<int>>)
    requires
        lex_ascending(a),
        lex_ascending(b),
        forall|x: Seq<int>| a.contains(x) <==> b.contains(x),
    ensures
        a == b,
    decreases a.len(),
{
    if a.len() == 0 {
        if b.len() > 0 {
            assert(b.contains(b[0]));
        }
        assert(a =~= b);
    } else {
        assert(a.contains(a[0]));
        let j = choose|j: int| 0 <= j < b.len() && b[j] == a[0];
        assert(b.contains(b[0]));
        let i = choose|i: int| 0 <= i < a.len() && a[i] == b[0];
        if j > 0 {
            assert(lex_less(b[0], b[j]));
            if i > 0 {
                assert(lex_less(a[0], a[i]));
            }
            lemma_lex_asymmetric(b[0], a[0]);
        }
        assert(a[0] == b[0]);
        let rest_a = a.skip(1);
        let rest_b = b.skip(1);
        assert forall|x: Seq<int>| rest_a.contains(x) <==> rest_b.contains(x) by {
            if rest_a.contains(x) {
                let p = choose|p: int| 0 <= p < rest_a.len() && rest_a[p] == x;
                assert(a[p + 1] == x);
                assert(a.contains(x));
                let q = choose|q: int| 0 <= q < b.len() && b[q] == x;
                if q == 0 {
                    assert(lex_less(a[0], a[p + 1]));
                }
                assert(rest_b[q - 1] == x);
            }
            if rest_b.contains(x) {
                let p = choose|p: int| 0 <= p < rest_b.len() && rest_b[p] == x;
                assert(b[p + 1] == x);
                assert(b.contains(x));
                let q = choose|q: int| 0 <= q < a.len() && a[q] == x;
                if q == 0 {
                    assert(lex_less(b[0], b[p + 1]));
                }
                assert(rest_a[q - 1] == x);
            }
        }
        assert forall|p: int, q: int| 0 <= p < q < rest_a.len() implies lex_less(
            #[trigger] rest_a[p],
            #[trigger] rest_a[q],
        ) by {
            assert(lex_less(a[p + 1], a[q + 1]));
        }
        assert forall|p: int, q: int| 0 <= p < q < rest_b.len() implies lex_less(
            #[trigger] rest_b[p],
            #[trigger] rest_b[q],
        ) by {
            assert(lex_less(b[p + 1], b[q + 1]));
        }
        lemma_ascending_unique(rest_a, rest_b);
        assert(a =~= seq![a[0]] + rest_a);
        assert(b =~= seq![b[0]] + rest_b);
    }
}

/// Only one list enumerates the ways to choose `r` indices out of `n`: whatever
/// produces such a list produces `all_combinations(n, r)`, every time.
pub proof fn lemma_enumeration_unique(all: Seq<Seq<int>>, n: nat, r: nat)
    requires
        is_enumeration(all, n, r),
    ensures
        all == all_combinations(n, r),
{
    let other = all_combinations(n, r);
    lemma_all_combinations_enumerate(n, r);
    assert forall|x: Seq<int>| all.contains(x) <==> other.contains(x) by {
        if all.contains(x) {
            let p = choose|p: int| 0 <= p < all.len() && all[p] == x;
            assert(is_combination(all[p], n, r));
        }
        if other.contains(x) {
            let p = choose|p: int| 0 <= p < other.len() && other[p] == x;
            assert(is_combination(other[p], n, r));
        }
    }
    lemma_ascending_unique(all, other);
}

} // verus!
