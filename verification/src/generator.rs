//! The generator: every subset of a fixed size, copied out of the pool in
//! lexicographic order of the chosen indices.

use vstd::prelude::*;
use crate::binomial::binomial;
use crate::enumeration::{
    all_combinations,
    combinations_from,
    is_enumeration,
    lemma_all_combinations_enumerate,
    lemma_combinations_from_enough,
    lemma_combinations_from_too_few,
    prepend_each,
};

verus! {

/// The items of `pool` at the indices `picks`, in the order of `picks`.
pub open spec fn select<T>(pool: Seq<T>, picks: Seq<int>) -> Seq<T> {
    Seq::new(picks.len(), |i: int| pool[picks[i]])
}

/// For each tuple of `tails`, the items already placed followed by the items
/// that the tuple selects.
pub open spec fn completions<T>(pool: Seq<T>, placed: Seq<T>, tails: Seq<Seq<int>>) -> Seq<Seq<T>> {
    Seq::new(tails.len(), |i: int| placed + select(pool, tails[i]))
}

/// The subsets of size `r` of `pool`, in lexicographic order of their indices.
pub open spec fn subsets_of<T>(pool: Seq<T>, r: nat) -> Seq<Seq<T>> {
    Seq::new(
        all_combinations(pool.len(), r).len(),
        |i: int| select(pool, all_combinations(pool.len(), r)[i]),
    )
}

/// What a list of buffers holds.
pub open spec fn contents<T>(list: Seq<Vec<T>>) -> Seq<Seq<T>> {
    Seq::new(list.len(), |i: int| list[i]@)
}

/// What a list of index buffers holds, as index tuples.
pub open spec fn index_contents(list: Seq<Vec<usize>>) -> Seq<Seq<int>> {
    Seq::new(list.len(), |i: int| Seq::new(list[i]@.len(), |j: int| list[i]@[j] as int))
}

/// Placing the item at `first` and then completing with `tails` gives what
/// completing with the tuples that begin with `first` gives.
proof fn lemma_completions_prepend<T>(pool: Seq<T>, placed: Seq<T>, first: int, tails: Seq<Seq<int>>)
    ensures
        completions(pool, placed.push(pool[first]), tails) == completions(
            pool,
            placed,
            prepend_each(first, tails),
        ),
{
    let left = completions(pool, placed.push(pool[first]), tails);
    let right = completions(pool, placed, prepend_each(first, tails));
    assert forall|i: int| 0 <= i < left.len() implies left[i] == right[i] by {
        assert(left[i] =~= right[i]);
    }
}

/// Completing with two lists of tuples, one after the other.
proof fn lemma_completions_concat<T>(
    pool: Seq<T>,
    placed: Seq<T>,
    front: Seq<Seq<int>>,
    back: Seq<Seq<int>>,
)
    ensures
        completions(pool, placed, front + back) == completions(pool, placed, front) + completions(
            pool,
            placed,
            back,
        ),
{
}

/// The same pool gives the same subsets in the same order: two lists that
/// each hold the subsets of size `r` of `pool` hold the same items throughout.
pub proof fn lemma_subsets_repeatable<T>(
    pool: Seq<T>,
    r: nat,
    first: Seq<Vec<T>>,
    second: Seq<Vec<T>>,
)
    requires
        contents(first) == subsets_of(pool, r),
        contents(second) == subsets_of(pool, r),
    ensures
        first.len() == second.len(),
        forall|i: int| 0 <= i < first.len() ==> (#[trigger] first[i])@ == second[i]@,
{
    assert(contents(second).len() == second.len());
    assert forall|i: int| 0 <= i < first.len() implies (#[trigger] first[i])@ == second[i]@ by {
        assert(contents(first)[i] == contents(second)[i]);
    }
}

/// A copy of the buffer.
fn copy_of<T: Copy>(data: &Vec<T>) -> (copy: Vec<T>)
    ensures
        copy@ == data@,
{
    let mut copy: Vec<T> = Vec::new();
    let mut j: usize = 0;
    while j < data.len()
        invariant
            j <= data.len(),
            copy@ == data@.take(j as int),
        decreases data.len() - j,
    {
        copy.push(data[j]);
        j += 1;
    }
    copy
}

/// Fills the buffer `data` from position `index` on with every choice of
/// items of `arr` at ascending indices in `start..=end`, and appends a copy of
/// the full buffer to `out` for each, in lexicographic order of the indices.
/// The size of a subset is the length of the buffer. The positions before
/// `index` are left as they are; the buffer ends as the last subset listed,
/// or unchanged where there is none.
pub fn combination_util<T: Copy>(
    arr: &[T],
    data: &mut Vec<T>,
    start: usize,
    end: usize,
    index: usize,
    out: &mut Vec<Vec<T>>,
)
    requires
        end < arr.len(),
        index <= old(data).len(),
    ensures
        final(data).len() == old(data).len(),
        final(data)@.take(index as int) == old(data)@.take(index as int),
        contents(final(out)@) == contents(old(out)@) + completions(
            arr@,
            old(data)@.take(index as int),
            combinations_from(start as int, end + 1, (old(data).len() - index) as nat),
        ),
        final(data)@ == if final(out).len() == old(out).len() {
            old(data)@
        } else {
            contents(final(out)@).last()
        },
    decreases old(data).len() - index,
{
    let r = data.len();
    let ghost placed = data@.take(index as int);
    let ghost before = contents(out@);
    let ghost k = (r - index) as nat;
    if index == r {
        let full = copy_of(data);
        out.push(full);
        proof {
            assert(data@.take(index as int) =~= data@);
        }
        return ;
    }
    let mut i = start;
    while i <= end && end - i + 1 >= r - index
        invariant
            end < arr.len(),
            index < r,
            r == data.len(),
            r == old(data).len(),
            k == r - index,
            start <= i,
            placed == data@.take(index as int),
            before == contents(old(out)@),
            contents(out@).len() >= before.len(),
            data@ == if contents(out@).len() == before.len() {
                old(data)@
            } else {
                contents(out@).last()
            },
            contents(out@) + completions(arr@, placed, combinations_from(i as int, end + 1, k))
                == before + completions(arr@, placed, combinations_from(start as int, end + 1, k)),
        decreases end + 1 - i,
    {
        let ghost with = combinations_from(i + 1, end + 1, (k - 1) as nat);
        let ghost without = combinations_from(i + 1, end + 1, k);
        data.set(index, arr[i]);
        proof {
            assert(data@.take(index + 1) =~= placed.push(arr@[i as int]));
            lemma_combinations_from_enough(i + 1, end + 1, (k - 1) as nat);
        }
        combination_util(arr, data, i + 1, end, index + 1, out);
        proof {
            assert(combinations_from(i as int, end + 1, k) == prepend_each(i as int, with)
                + without);
            lemma_completions_prepend(arr@, placed, i as int, with);
            lemma_completions_concat(arr@, placed, prepend_each(i as int, with), without);
        }
        i += 1;
    }
    proof {
        lemma_combinations_from_too_few(i as int, end + 1, k);
    }
}

/// Every subset of size `r` of `pool`, each with its items in pool order, the
/// subsets in lexicographic order of their indices. There are none when `r`
/// exceeds the size of the pool, and one, the empty one, when `r` is zero.
pub fn combinations<T: Copy>(pool: &[T], r: usize) -> (subsets: Vec<Vec<T>>)
    ensures
        contents(subsets@) == subsets_of(pool@, r as nat),
        subsets.len() == binomial(pool@.len(), r as nat),
        forall|i: int| 0 <= i < subsets.len() ==> (#[trigger] subsets[i]).len() == r,
{
    let n = pool.len();
    let mut out: Vec<Vec<T>> = Vec::new();
    proof {
        lemma_all_combinations_enumerate(n as nat, r as nat);
    }
    if r > n {
        proof {
            lemma_combinations_from_too_few(0, n as int, r as nat);
        }
        return out;
    }
    if n == 0 {
        out.push(Vec::new());
        proof {
            assert(contents(out@)[0] =~= subsets_of(pool@, r as nat)[0]);
        }
        return out;
    }
    let mut data: Vec<T> = Vec::new();
    let mut j: usize = 0;
    while j < r
        invariant
            j <= r,
            data.len() == j,
            0 < pool.len(),
        decreases r - j,
    {
        data.push(pool[0]);
        j += 1;
    }
    combination_util(pool, &mut data, 0, n - 1, 0, &mut out);
    proof {
        assert forall|i: int| 0 <= i < out.len() implies (#[trigger] out[i]).len() == r by {
            assert(out[i]@ == contents(out@)[i]);
        }
    }
    out
}

/// Every way to choose `r` indices out of `0..n`: each tuple ascends strictly,
/// the tuples come in lexicographic order, none is missing and none occurs
/// twice.
pub fn index_combinations(n: usize, r: usize) -> (all: Vec<Vec<usize>>)
    ensures
        index_contents(all@) == all_combinations(n as nat, r as nat),
        is_enumeration(index_contents(all@), n as nat, r as nat),
        all.len() == binomial(n as nat, r as nat),
{
    let mut identity: Vec<usize> = Vec::new();
    let mut i: usize = 0;
    while i < n
        invariant
            i <= n,
            identity.len() == i,
            forall|j: int| 0 <= j < i ==> identity[j] == j,
        decreases n - i,
    {
        identity.push(i);
        i += 1;
    }
    let all = combinations(identity.as_slice(), r);
    proof {
        let tuples = all_combinations(n as nat, r as nat);
        lemma_all_combinations_enumerate(n as nat, r as nat);
        assert forall|p: int| 0 <= p < tuples.len() implies index_contents(all@)[p]
            == tuples[p] by {
            assert(all[p]@ == contents(all@)[p]);
        }
    }
    all
}

} // verus!
