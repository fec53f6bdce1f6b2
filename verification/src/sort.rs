//! Sorting algorithms for onedimensional datasets

use crate::order::{ascending, ascending_steps, gt, irreflexive, le, lt, obeys_order, total_order};
use vstd::prelude::*;

verus! {

/// `<[T]>::swap` exchanges the elements at the two positions and leaves all
/// others as they were; it panics when a position lies outside the slice.
pub assume_specification<T>[ <[T]>::swap ](slice: &mut [T], a: usize, b: usize)
    requires
        a < old(slice)@.len(),
        b < old(slice)@.len(),
    ensures
        final(slice)@ == old(slice)@.update(a as int, old(slice)@[b as int]).update(
            b as int,
            old(slice)@[a as int],
        ),
;

/// Replacing one element takes it out of the multiset of elements and puts
/// the new one in.
pub proof fn lemma_update_multiset<A>(s: Seq<A>, i: int, v: A)
    requires
        0 <= i < s.len(),
    ensures
        s.update(i, v).to_multiset() == s.to_multiset().remove(s[i]).insert(v),
        s.to_multiset().count(s[i]) > 0,
{
    broadcast use vstd::seq_lib::group_to_multiset_ensures;

    assert(s.update(i, v) =~= s.remove(i).insert(i, v));
    assert(s.contains(s[i]));
    assert(s.update(i, v).to_multiset() =~= s.to_multiset().remove(s[i]).insert(v));
}

/// Exchanging two elements keeps the multiset of elements.
pub proof fn lemma_swap_multiset<A>(s: Seq<A>, i: int, j: int)
    requires
        0 <= i < s.len(),
        0 <= j < s.len(),
    ensures
        s.update(i, s[j]).update(j, s[i]).to_multiset() == s.to_multiset(),
{
    let s1 = s.update(i, s[j]);
    lemma_update_multiset(s, i, s[j]);
    lemma_update_multiset(s1, j, s[i]);
    lemma_update_multiset(s, j, s[i]);
    assert(s1.update(j, s[i]).to_multiset() =~= s.to_multiset());
}

/// `origin` tells for each position of `now` where its element was in
/// `before`: `now` holds the elements of `before` in another order, and
/// elements that are equal in the order are in the order in which they were.
pub open spec fn stable_rearrangement<E: PartialOrd>(
    before: Seq<E>,
    now: Seq<E>,
    origin: Seq<int>,
) -> bool {
    &&& origin.len() == now.len() == before.len()
    &&& forall|k: int|
        0 <= k < now.len() ==> 0 <= #[trigger] origin[k] < before.len() && now[k]
            == before[origin[k]]
    &&& forall|a: int, b: int|
        0 <= a < b < now.len() ==> #[trigger] origin[a] != #[trigger] origin[b]
    &&& forall|a: int, b: int|
        0 <= a < b < now.len() && le(now[a], now[b]) && le(now[b], now[a]) ==> #[trigger] origin[a]
            < #[trigger] origin[b]
}

/// `now` holds the elements of `before`, and those that are equal in the
/// order are in the order in which they were.
pub open spec fn stable<E: PartialOrd>(before: Seq<E>, now: Seq<E>) -> bool {
    exists|origin: Seq<int>| stable_rearrangement(before, now, origin)
}

/// The positions themselves, as the origin of a sequence that was not rearranged.
pub open spec fn in_place(len: nat) -> Seq<int> {
    Seq::new(len, |k: int| k)
}

/// Exchanging two neighbours that are not equal in the order keeps a
/// rearrangement stable.
pub proof fn lemma_adjacent_swap_is_stable<E: PartialOrd>(
    before: Seq<E>,
    now: Seq<E>,
    origin: Seq<int>,
    k: int,
)
    requires
        stable_rearrangement(before, now, origin),
        0 <= k,
        k + 1 < now.len(),
        !(le(now[k], now[k + 1]) && le(now[k + 1], now[k])),
    ensures
        stable_rearrangement(
            before,
            now.update(k, now[k + 1]).update(k + 1, now[k]),
            origin.update(k, origin[k + 1]).update(k + 1, origin[k]),
        ),
{
    let now2 = now.update(k, now[k + 1]).update(k + 1, now[k]);
    let origin2 = origin.update(k, origin[k + 1]).update(k + 1, origin[k]);
    // where the element at a position of `now2` is in `now`
    let at = |i: int|
        if i == k {
            k + 1
        } else if i == k + 1 {
            k
        } else {
            i
        };
    assert forall|i: int| 0 <= i < now2.len() implies 0 <= #[trigger] origin2[i] < before.len()
        && now2[i] == before[origin2[i]] by {
        assert(origin2[i] == origin[at(i)]);
        assert(now2[i] == now[at(i)]);
    }
    assert forall|a: int, b: int| 0 <= a < b < now2.len() implies #[trigger] origin2[a]
        != #[trigger] origin2[b] by {
        assert(origin2[a] == origin[at(a)]);
        assert(origin2[b] == origin[at(b)]);
        if at(a) < at(b) {
            assert(origin[at(a)] != origin[at(b)]);
        } else {
            assert(origin[at(b)] != origin[at(a)]);
        }
    }
    assert forall|a: int, b: int|
        0 <= a < b < now2.len() && le(now2[a], now2[b]) && le(now2[b], now2[a]) implies #[trigger] origin2[a]
        < #[trigger] origin2[b] by {
        assert(origin2[a] == origin[at(a)]);
        assert(origin2[b] == origin[at(b)]);
        assert(now2[a] == now[at(a)]);
        assert(now2[b] == now[at(b)]);
        if a == k && b == k + 1 {
            assert(false);
        } else {
            assert(at(a) < at(b));
            assert(origin[at(a)] < origin[at(b)]);
        }
    }
}

/// Returns true only if *arr* is in ascending partial order
pub fn is_sorted<E: PartialOrd>(arr: &[E]) -> (sorted: bool)
    ensures
        obeys_order::<E>() ==> (sorted <==> ascending_steps(arr@)),
        total_order::<E>() ==> (sorted <==> ascending(arr@)),
{
    proof {
        if total_order::<E>() {
            crate::order::lemma_ascending_steps(arr@);
        }
    }
    let n = arr.len();
    let mut i: usize = 1;
    while i < n
        invariant
            1 <= i,
            n == arr@.len(),
            obeys_order::<E>() ==> forall|k: int| 0 <= k && k + 1 < i ==> le(#[trigger] arr@[k], arr@[k + 1]),
        decreases n - i,
    {
        if !(arr[i - 1] <= arr[i]) {
            assert(obeys_order::<E>() ==> !le(arr@[i - 1], arr@[i - 1 + 1]));
            return false;
        }
        i += 1;
    }
    true
}

/// Sort *arr* inplace using Insertion sort.
///
/// The sort is stable: elements that are equal in the order stay in the
/// order in which they were.
pub fn insertion<E: PartialOrd>(arr: &mut [E])
    ensures
        final(arr)@.len() == old(arr)@.len(),
        final(arr)@.to_multiset() == old(arr)@.to_multiset(),
        total_order::<E>() ==> ascending(final(arr)@),
        total_order::<E>() ==> stable(old(arr)@, final(arr)@),
{
    let n = arr.len();
    let ghost mut origin: Seq<int> = in_place(n as nat);
    let mut i: usize = 1;
    while i < n
        invariant
            1 <= i,
            n == arr@.len() == old(arr)@.len(),
            arr@.to_multiset() == old(arr)@.to_multiset(),
            total_order::<E>() ==> forall|a: int, b: int| 0 <= a < b < i && b < n ==> le(arr@[a], arr@[b]),
            total_order::<E>() ==> stable_rearrangement(old(arr)@, arr@, origin),
        decreases n - i,
    {
        let mut j: usize = i;
        while j > 0 && arr[j] < arr[j - 1]
            invariant
                j <= i < n,
                n == arr@.len() == old(arr)@.len(),
                arr@.to_multiset() == old(arr)@.to_multiset(),
                total_order::<E>() ==> forall|a: int, b: int|
                    0 <= a < b <= i && a != j && b != j ==> le(arr@[a], arr@[b]),
                total_order::<E>() ==> forall|b: int| j < b <= i ==> le(arr@[j as int], arr@[b]),
                total_order::<E>() ==> stable_rearrangement(old(arr)@, arr@, origin),
            decreases j,
        {
            proof {
                lemma_swap_multiset(arr@, j as int, j - 1);
                if total_order::<E>() {
                    assert(lt(arr@[j as int], arr@[j - 1]));
                    lemma_adjacent_swap_is_stable(old(arr)@, arr@, origin, j - 1);
                    assert(arr@.update(j as int, arr@[j - 1]).update(j - 1, arr@[j as int])
                        =~= arr@.update(j - 1, arr@[j as int]).update(j as int, arr@[j - 1]));
                }
                origin = origin.update(j - 1, origin[j as int]).update(j as int, origin[j - 1]);
            }
            arr.swap(j, j - 1);
            j -= 1;
        }
        proof {
            if total_order::<E>() {
                assert forall|a: int, b: int| 0 <= a < b <= i implies le(arr@[a], arr@[b]) by {
                    if b == j {
                        assert(!lt(arr@[j as int], arr@[j - 1]));
                        assert(le(arr@[j - 1], arr@[j as int]));
                        if a < j - 1 {
                            assert(le(arr@[a], arr@[j - 1]));
                        }
                    }
                }
            }
        }
        i += 1;
    }
}

/// Sort *arr* inplace using exchange sort.
///
/// The sort is stable: elements that are equal in the order stay in the
/// order in which they were.
pub fn exchange<E: PartialOrd>(arr: &mut [E])
    ensures
        final(arr)@.len() == old(arr)@.len(),
        final(arr)@.to_multiset() == old(arr)@.to_multiset(),
        total_order::<E>() ==> ascending(final(arr)@),
        total_order::<E>() ==> stable(old(arr)@, final(arr)@),
{
    let n = arr.len();
    let ghost mut origin: Seq<int> = in_place(n as nat);
    if n == 0 {
        assert(stable_rearrangement(old(arr)@, arr@, origin));
        return ;
    }
    let mut round: usize = 0;
    while round < n - 1
        invariant
            1 <= n == arr@.len() == old(arr)@.len(),
            round <= n - 1,
            arr@.to_multiset() == old(arr)@.to_multiset(),
            total_order::<E>() ==> stable_rearrangement(old(arr)@, arr@, origin),
            // the last `round` elements are in place
            total_order::<E>() ==> forall|a: int, b: int|
                0 <= a < b < n && n - round <= b ==> le(arr@[a], arr@[b]),
        decreases n - 1 - round,
    {
        let mut is_sorted = true;
        let mut i: usize = 0;
        while i < n - 1
            invariant
                1 <= n == arr@.len() == old(arr)@.len(),
                i <= n - 1,
                round < n - 1,
                arr@.to_multiset() == old(arr)@.to_multiset(),
                total_order::<E>() ==> stable_rearrangement(old(arr)@, arr@, origin),
            total_order::<E>() ==> stable_rearrangement(old(arr)@, arr@, origin),
                total_order::<E>() ==> forall|a: int, b: int|
                    0 <= a < b < n && n - round <= b ==> le(arr@[a], arr@[b]),
                // the element at `i` is the largest so far
                total_order::<E>() ==> forall|a: int| 0 <= a < i ==> le(#[trigger] arr@[a], arr@[i as int]),
                // once the bubble has passed the place before the part in place, it rests there
                total_order::<E>() && i >= n - 1 - round ==> forall|a: int|
                    0 <= a < n - 1 - round ==> le(#[trigger] arr@[a], arr@[n - 1 - round]),
                total_order::<E>() && is_sorted ==> forall|a: int|
                    0 <= a < i ==> le(#[trigger] arr@[a], arr@[a + 1]),
            decreases n - 1 - i,
        {
            if arr[i] > arr[i + 1] {
                proof {
                    lemma_swap_multiset(arr@, i as int, i + 1);
                    if total_order::<E>() {
                        assert(!le(arr@[i as int], arr@[i + 1]));
                        assert(le(arr@[i + 1], arr@[i as int]));
                        // a bubble that rises never enters the part in place
                        if n - round <= i + 1 {
                            assert(le(arr@[i as int], arr@[i + 1]));
                        }
                        lemma_adjacent_swap_is_stable(old(arr)@, arr@, origin, i as int);
                    }
                    origin = origin.update(i as int, origin[i + 1]).update(i + 1, origin[i as int]);
                }
                arr.swap(i, i + 1);
                is_sorted = false;
            } else {
                proof {
                    if total_order::<E>() {
                        assert(!gt(arr@[i as int], arr@[i + 1]));
                        assert(le(arr@[i as int], arr@[i + 1]));
                        assert forall|a: int| 0 <= a < i + 1 implies le(#[trigger] arr@[a], arr@[i + 1]) by {
                            if a < i {
                                assert(le(arr@[a], arr@[i as int]));
                            }
                        }
                    }
                }
            }
            i += 1;
        }
        if is_sorted {
            proof {
                if total_order::<E>() {
                    assert(ascending_steps(arr@));
                    crate::order::lemma_ascending_steps(arr@);
                }
            }
            return ;
        }
        proof {
            if total_order::<E>() {
                assert forall|a: int, b: int|
                    0 <= a < b < n && n - (round + 1) <= b implies le(arr@[a], arr@[b]) by {
                    if b == n - 1 - round {
                        assert(le(arr@[a], arr@[n - 1 - round]));
                    }
                }
            }
        }
        round += 1;
    }
    proof {
        if total_order::<E>() {
            assert forall|a: int, b: int| 0 <= a < b < n implies le(arr@[a], arr@[b]) by {
                assert(n - round <= b);
            }
        }
    }
}

/// Sort *arr* inplace using Bubble sort
///
/// The sort is stable: elements that are equal in the order stay in the
/// order in which they were.
pub fn bubble<E: PartialOrd>(arr: &mut [E])
    ensures
        final(arr)@.len() == old(arr)@.len(),
        final(arr)@.to_multiset() == old(arr)@.to_multiset(),
        total_order::<E>() ==> ascending(final(arr)@),
        total_order::<E>() ==> stable(old(arr)@, final(arr)@),
{
    let n = arr.len();
    let ghost mut origin: Seq<int> = in_place(n as nat);
    let mut i: usize = 0;
    while i < n
        invariant
            i <= n == arr@.len() == old(arr)@.len(),
            arr@.to_multiset() == old(arr)@.to_multiset(),
            total_order::<E>() ==> stable_rearrangement(old(arr)@, arr@, origin),
            // the last `i` elements are in place
            total_order::<E>() ==> forall|a: int, b: int|
                0 <= a < b < n && n - i <= b ==> le(arr@[a], arr@[b]),
        ensures
            total_order::<E>() ==> ascending(arr@),
        decreases n - i,
    {
        let mut swapped = false;
        let mut j: usize = 0;
        while j < n - i - 1
            invariant
                i < n == arr@.len() == old(arr)@.len(),
                j <= n - i - 1,
                arr@.to_multiset() == old(arr)@.to_multiset(),
                total_order::<E>() ==> stable_rearrangement(old(arr)@, arr@, origin),
            total_order::<E>() ==> stable_rearrangement(old(arr)@, arr@, origin),
                total_order::<E>() ==> forall|a: int, b: int|
                    0 <= a < b < n && n - i <= b ==> le(arr@[a], arr@[b]),
                // the element at `j` is the largest so far
                total_order::<E>() ==> forall|a: int| 0 <= a < j ==> le(#[trigger] arr@[a], arr@[j as int]),
                total_order::<E>() && !swapped ==> forall|a: int|
                    0 <= a < j ==> le(#[trigger] arr@[a], arr@[a + 1]),
            decreases n - i - 1 - j,
        {
            if arr[j] > arr[j + 1] {
                proof {
                    lemma_swap_multiset(arr@, j as int, j + 1);
                    if total_order::<E>() {
                        assert(!le(arr@[j as int], arr@[j + 1]));
                        assert(le(arr@[j + 1], arr@[j as int]));
                        lemma_adjacent_swap_is_stable(old(arr)@, arr@, origin, j as int);
                    }
                    origin = origin.update(j as int, origin[j + 1]).update(j + 1, origin[j as int]);
                }
                arr.swap(j, j + 1);
                swapped = true;
            } else {
                proof {
                    if total_order::<E>() {
                        assert(!gt(arr@[j as int], arr@[j + 1]));
                        assert(le(arr@[j as int], arr@[j + 1]));
                        assert forall|a: int| 0 <= a < j + 1 implies le(#[trigger] arr@[a], arr@[j + 1]) by {
                            if a < j {
                                assert(le(arr@[a], arr@[j as int]));
                            }
                        }
                    }
                }
            }
            j += 1;
        }
        if !swapped {
            proof {
                if total_order::<E>() {
                    assert forall|a: int| 0 <= a && a + 1 < n implies le(#[trigger] arr@[a], arr@[a + 1]) by {
                        if a >= n - i - 1 {
                            assert(0 <= a < a + 1 < n && n - i <= a + 1);
                        }
                    }
                    assert(ascending_steps(arr@));
                    crate::order::lemma_ascending_steps(arr@);
                }
            }
            break ;
        }
        proof {
            if total_order::<E>() {
                assert forall|a: int, b: int|
                    0 <= a < b < n && n - (i + 1) <= b implies le(arr@[a], arr@[b]) by {
                    if b == n - 1 - i {
                        assert(le(arr@[a], arr@[j as int]));
                    }
                }
            }
        }
        i += 1;
    }
}

/// The elements of `keys`, each with the element of `vals` at the same position.
pub open spec fn pairs<O, C>(keys: Seq<O>, vals: Seq<C>) -> Seq<(O, C)> {
    Seq::new(keys.len(), |i: int| (keys[i], vals[i]))
}

/// The companions have moved as `origin` tells: the one at each position
/// was at the position that `origin` gives for it.
pub open spec fn accompanied<C>(before: Seq<C>, now: Seq<C>, origin: Seq<int>) -> bool {
    forall|k: int|
        0 <= k < origin.len() ==> 0 <= #[trigger] origin[k] < before.len() && now[k]
            == before[origin[k]]
}

/// Cosort two arrays: sort *arr* by insertion and move the elements of
/// *co_arr* along, so that each element of *arr* keeps the companion it had.
///
/// Only the first `arr.len()` elements of *co_arr* take part; the rest stays
/// where it is. The sort is stable: elements of *arr* that are equal in the
/// order stay in the order in which they were, and so do their companions.
pub fn co_sort<O: PartialOrd, C>(arr: &mut [O], co_arr: &mut [C])
    requires
        old(arr)@.len() <= old(co_arr)@.len(),
    ensures
        final(arr)@.len() == old(arr)@.len(),
        final(co_arr)@.len() == old(co_arr)@.len(),
        final(arr)@.to_multiset() == old(arr)@.to_multiset(),
        pairs(final(arr)@, final(co_arr)@).to_multiset() == pairs(
            old(arr)@,
            old(co_arr)@,
        ).to_multiset(),
        forall|k: int|
            old(arr)@.len() <= k < old(co_arr)@.len() ==> final(co_arr)@[k] == old(co_arr)@[k],
        total_order::<O>() ==> ascending(final(arr)@),
        total_order::<O>() ==> exists|origin: Seq<int>|
            {
                &&& #[trigger] stable_rearrangement(old(arr)@, final(arr)@, origin)
                &&& accompanied(old(co_arr)@, final(co_arr)@, origin)
            },
{
    let n = arr.len();
    let ghost mut origin: Seq<int> = in_place(n as nat);
    let mut i: usize = 1;
    while i < n
        invariant
            1 <= i,
            n == arr@.len() == old(arr)@.len(),
            n <= co_arr@.len() == old(co_arr)@.len(),
            arr@.to_multiset() == old(arr)@.to_multiset(),
            pairs(arr@, co_arr@).to_multiset() == pairs(old(arr)@, old(co_arr)@).to_multiset(),
            forall|k: int| n <= k < co_arr@.len() ==> co_arr@[k] == old(co_arr)@[k],
            total_order::<O>() ==> forall|a: int, b: int| 0 <= a < b < i && b < n ==> le(arr@[a], arr@[b]),
            total_order::<O>() ==> stable_rearrangement(old(arr)@, arr@, origin),
            origin.len() == n,
            accompanied(old(co_arr)@, co_arr@, origin),
        decreases n - i,
    {
        let mut j: usize = i;
        while j > 0 && arr[j] < arr[j - 1]
            invariant
                j <= i < n,
                n == arr@.len() == old(arr)@.len(),
                n <= co_arr@.len() == old(co_arr)@.len(),
                arr@.to_multiset() == old(arr)@.to_multiset(),
                pairs(arr@, co_arr@).to_multiset() == pairs(old(arr)@, old(co_arr)@).to_multiset(),
                forall|k: int| n <= k < co_arr@.len() ==> co_arr@[k] == old(co_arr)@[k],
                total_order::<O>() ==> forall|a: int, b: int|
                    0 <= a < b <= i && a != j && b != j ==> le(arr@[a], arr@[b]),
                total_order::<O>() ==> forall|b: int| j < b <= i ==> le(arr@[j as int], arr@[b]),
                total_order::<O>() ==> stable_rearrangement(old(arr)@, arr@, origin),
                origin.len() == n,
                accompanied(old(co_arr)@, co_arr@, origin),
            decreases j,
        {
            let ghost keys = arr@;
            let ghost vals = co_arr@;
            let ghost from = origin;
            arr.swap(j, j - 1);
            co_arr.swap(j, j - 1);
            proof {
                lemma_swap_multiset(keys, j as int, j - 1);
                let p = pairs(keys, vals);
                lemma_swap_multiset(p, j as int, j - 1);
                assert(pairs(arr@, co_arr@) =~= p.update(j as int, p[j - 1]).update(j - 1, p[j as int]));
                origin = from.update(j - 1, from[j as int]).update(j as int, from[j - 1]);
                if total_order::<O>() {
                    assert(lt(keys[j as int], keys[j - 1]));
                    lemma_adjacent_swap_is_stable(old(arr)@, keys, from, j - 1);
                    assert(arr@ =~= keys.update(j - 1, keys[j as int]).update(j as int, keys[j - 1]));
                }
                assert forall|k: int| 0 <= k < origin.len() implies 0 <= #[trigger] origin[k]
                    < old(co_arr)@.len() && co_arr@[k] == old(co_arr)@[origin[k]] by {
                    if k == j {
                        assert(origin[k] == from[j - 1]);
                    } else if k == j - 1 {
                        assert(origin[k] == from[j as int]);
                    } else {
                        assert(origin[k] == from[k]);
                    }
                }
            }
            j -= 1;
        }
        proof {
            if total_order::<O>() {
                assert forall|a: int, b: int| 0 <= a < b <= i implies le(arr@[a], arr@[b]) by {
                    if b == j {
                        assert(!lt(arr@[j as int], arr@[j - 1]));
                        assert(le(arr@[j - 1], arr@[j as int]));
                        if a < j - 1 {
                            assert(le(arr@[a], arr@[j - 1]));
                        }
                    }
                }
            }
        }
        i += 1;
    }
}

/// The increments of Shell sort: 1, 4, 13, 40, ..., each three times the
/// one before plus one.
pub open spec fn increment(x: nat) -> bool
    decreases x,
{
    x == 1 || (x >= 4 && x % 3 == 1 && increment(x / 3))
}

/// Sort *arr* inplace using Shell sort.
///
/// The increments run down the sequence 1, 4, 13, ... from the first one
/// above the length; the pass with increment 1 is an insertion sort and
/// leaves the array in order.
pub fn shell<E: PartialOrd>(arr: &mut [E])
    requires
        irreflexive::<E>(),
        3 * old(arr)@.len() + 1 <= usize::MAX,
    ensures
        final(arr)@.len() == old(arr)@.len(),
        final(arr)@.to_multiset() == old(arr)@.to_multiset(),
        total_order::<E>() ==> ascending(final(arr)@),
{
    let n = arr.len();
    let mut inc: usize = 1;
    while inc <= n
        invariant
            n == arr@.len(),
            3 * n + 1 <= usize::MAX,
            1 <= inc <= 3 * n + 1,
            increment(inc as nat),
            n >= 1 ==> inc == 1 || inc >= 4,
        decreases 3 * n + 2 - inc,
    {
        inc = 3 * inc + 1;
    }
    assert(n >= 1 ==> inc >= 4);
    while inc >= 1
        invariant
            irreflexive::<E>(),
            n == arr@.len() == old(arr)@.len(),
            arr@.to_multiset() == old(arr)@.to_multiset(),
            inc == 0 || increment(inc as nat),
            total_order::<E>() && inc <= 1 ==> ascending(arr@),
        decreases inc,
    {
        inc = inc / 3;
        let mut i: usize = inc;
        while i < n
            invariant
                irreflexive::<E>(),
                inc <= i,
                n == arr@.len() == old(arr)@.len(),
                arr@.to_multiset() == old(arr)@.to_multiset(),
                total_order::<E>() && inc == 0 ==> ascending(arr@),
                total_order::<E>() && inc == 1 ==> forall|a: int, b: int|
                    0 <= a < b < i && b < n ==> le(arr@[a], arr@[b]),
            decreases n - i,
        {
            let mut j: usize = i;
            while arr[j] < arr[j - inc]
                invariant_except_break
                    inc <= j,
                invariant
                    irreflexive::<E>(),
                    j <= i < n,
                    n == arr@.len() == old(arr)@.len(),
                    arr@.to_multiset() == old(arr)@.to_multiset(),
                    total_order::<E>() && inc == 0 ==> ascending(arr@),
                    total_order::<E>() && inc == 1 ==> forall|a: int, b: int|
                        0 <= a < b <= i && a != j && b != j ==> le(arr@[a], arr@[b]),
                    total_order::<E>() && inc == 1 ==> forall|b: int|
                        j < b <= i ==> le(arr@[j as int], arr@[b]),
                ensures
                    j < inc || !lt(arr@[j as int], arr@[j - inc]),
                decreases j,
            {
                proof {
                    // an element is not before itself, so the increment is not zero here
                    assert(lt(arr@[j as int], arr@[j - inc]));
                    assert(inc >= 1);
                    lemma_swap_multiset(arr@, j as int, j - inc);
                }
                arr.swap(j, j - inc);
                j -= inc;
                if j < inc {
                    break ;
                }
            }
            proof {
                if total_order::<E>() && inc == 1 {
                    assert forall|a: int, b: int| 0 <= a < b <= i implies le(arr@[a], arr@[b]) by {
                        if b == j && j >= 1 {
                            assert(!lt(arr@[j as int], arr@[j - 1]));
                            assert(le(arr@[j - 1], arr@[j as int]));
                            if a < j - 1 {
                                assert(le(arr@[a], arr@[j - 1]));
                            }
                        }
                    }
                }
            }
            i += 1;
        }
    }
}

/// The ranges that quicksort has put aside lie on its stack as pairs, the
/// lower bound below the upper one. Each range is within an array of length
/// `n` and not empty.
pub open spec fn ranges_within(stack: Seq<usize>, n: int) -> bool
    decreases stack.len(),
{
    stack.len() == 0 || (stack.len() >= 2 && stack[stack.len() - 2] <= stack[stack.len() - 1] < n
        && ranges_within(stack.drop_last().drop_last(), n))
}

/// The work that the ranges on the stack stand for: a range of `s` elements
/// counts `2 * s - 1`, which is more than the two parts count into which a
/// partition splits it.
pub open spec fn pending(stack: Seq<usize>) -> int
    decreases stack.len(),
{
    if stack.len() < 2 {
        0
    } else {
        pending(stack.drop_last().drop_last()) + 2 * (stack[stack.len() - 1] - stack[stack.len()
            - 2]) + 1
    }
}

proof fn lemma_pending_nonnegative(stack: Seq<usize>, n: int)
    requires
        ranges_within(stack, n),
    ensures
        pending(stack) >= 0,
    decreases stack.len(),
{
    if stack.len() >= 2 {
        lemma_pending_nonnegative(stack.drop_last().drop_last(), n);
    }
}

proof fn lemma_pending_push(stack: Seq<usize>, lo: usize, hi: usize, n: int)
    requires
        ranges_within(stack, n),
        lo <= hi < n,
    ensures
        ranges_within(stack.push(lo).push(hi), n),
        pending(stack.push(lo).push(hi)) == pending(stack) + 2 * (hi - lo) + 1,
{
    let t = stack.push(lo).push(hi);
    assert(t.drop_last().drop_last() =~= stack);
}

/// Sort *arr* inplace using quicksort.
///
/// Ranges of more than seven elements are partitioned around the median of
/// their first, middle and last element, and one part is put aside on a
/// stack. When a range is small, the whole array is sorted by insertion.
pub fn quick<E: PartialOrd + Copy>(arr: &mut [E])
    requires
        total_order::<E>(),
    ensures
        final(arr)@.len() == old(arr)@.len(),
        final(arr)@.to_multiset() == old(arr)@.to_multiset(),
        ascending(final(arr)@),
{
    let n = arr.len();
    if n == 0 {
        return ;
    }
    let m: usize = 7;
    let mut il: usize = 0;
    let mut ir: usize = n - 1;
    let mut stack: Vec<usize> = Vec::new();

    loop
        invariant_except_break
            il <= ir < n,
            ranges_within(stack@, n as int),
        invariant
            total_order::<E>(),
            1 <= n == arr@.len() == old(arr)@.len(),
            m == 7,
            arr@.to_multiset() == old(arr)@.to_multiset(),
        ensures
            ascending(arr@),
        decreases pending(stack@) + 2 * (ir - il) + 1,
    {
        proof {
            lemma_pending_nonnegative(stack@, n as int);
        }
        if ir - il < m {
            insertion(arr);
            if stack.is_empty() {
                break ;
            }
            let ghost before = stack@;
            ir = stack.pop().unwrap();
            il = stack.pop().unwrap();
            assert(stack@ == before.drop_last().drop_last());
        } else {
            let k = il + (ir - il) / 2;
            proof {
                lemma_swap_multiset(arr@, k as int, il + 1);
            }
            arr.swap(k, il + 1);
            if arr[il] > arr[ir] {
                proof {
                    lemma_swap_multiset(arr@, il as int, ir as int);
                    assert(gt(arr@[il as int], arr@[ir as int]));
                    assert(le(arr@[ir as int], arr@[il as int]));
                }
                arr.swap(il, ir);
            } else {
                assert(!gt(arr@[il as int], arr@[ir as int]));
            }
            assert(le(arr@[il as int], arr@[ir as int]));
            if arr[il + 1] > arr[ir] {
                proof {
                    lemma_swap_multiset(arr@, il + 1, ir as int);
                    assert(gt(arr@[il + 1], arr@[ir as int]));
                    assert(le(arr@[ir as int], arr@[il + 1]));
                    assert(le(arr@[il as int], arr@[il + 1]));
                }
                arr.swap(il + 1, ir);
            } else {
                assert(!gt(arr@[il + 1], arr@[ir as int]));
            }
            assert(le(arr@[il as int], arr@[ir as int]));
            assert(le(arr@[il + 1], arr@[ir as int]));
            if arr[il] > arr[il + 1] {
                proof {
                    lemma_swap_multiset(arr@, il as int, il + 1);
                    assert(gt(arr@[il as int], arr@[il + 1]));
                    assert(le(arr@[il + 1], arr@[il as int]));
                }
                arr.swap(il, il + 1);
            } else {
                assert(!gt(arr@[il as int], arr@[il + 1]));
            }
            assert(le(arr@[il + 1], arr@[ir as int]));
            let mut i: usize = il + 1;
            let mut j: usize = ir;
            let pivot = arr[il + 1];
            assert(le(pivot, arr@[ir as int]));
            assert(le(pivot, pivot));
            loop
                invariant_except_break
                    i <= j,
                    i < ir,
                    il + 1 < j,
                    forall|p: int| il + 1 <= p <= i ==> le(#[trigger] arr@[p], pivot),
                    forall|p: int| j <= p <= ir ==> le(pivot, #[trigger] arr@[p]),
                invariant
                    total_order::<E>(),
                    il + 1 <= i <= ir < n,
                    il + 1 <= j <= ir,
                    n == arr@.len() == old(arr)@.len(),
                    arr@.to_multiset() == old(arr)@.to_multiset(),
                    arr@[il + 1] == pivot,
                ensures
                    j < i,
                decreases ir - i,
            {
                let ghost i0 = i;
                let ghost j0 = j;
                i += 1;
                j -= 1;
                while arr[i] < pivot
                    invariant
                        total_order::<E>(),
                        i0 < i <= ir < n,
                        i <= j0 || i == j0 + 1,
                        j0 <= ir,
                        i0 == j0 ==> j0 + 1 <= ir,
                        n == arr@.len(),
                        forall|p: int| il + 1 <= p < i ==> le(#[trigger] arr@[p], pivot),
                        forall|p: int| j0 <= p <= ir ==> le(pivot, #[trigger] arr@[p]),
                    decreases ir - i,
                {
                    proof {
                        // the scan stops at the first element that is not before the pivot
                        assert(lt(arr@[i as int], pivot));
                        assert(!le(pivot, arr@[i as int]));
                        assert(i < j0);
                        assert(le(arr@[i as int], pivot));
                    }
                    i += 1;
                }
                while arr[j] > pivot
                    invariant
                        total_order::<E>(),
                        il + 1 <= j < j0 <= ir < n,
                        il + 1 <= i0,
                        i0 <= j || j == i0 - 1,
                        n == arr@.len(),
                        forall|p: int| il + 1 <= p <= i0 ==> le(#[trigger] arr@[p], pivot),
                        forall|p: int| j < p <= ir ==> le(pivot, #[trigger] arr@[p]),
                    decreases j,
                {
                    proof {
                        assert(gt(arr@[j as int], pivot));
                        assert(!le(arr@[j as int], pivot));
                        assert(i0 < j);
                        assert(le(pivot, arr@[j as int]));
                    }
                    j -= 1;
                }
                if j < i {
                    break ;
                }
                proof {
                    assert(!lt(arr@[i as int], pivot));
                    assert(le(pivot, arr@[i as int]));
                    assert(!gt(arr@[j as int], pivot));
                    assert(le(arr@[j as int], pivot));
                    lemma_swap_multiset(arr@, i as int, j as int);
                }
                arr.swap(i, j);
            }
            proof {
                lemma_swap_multiset(arr@, il + 1, j as int);
            }
            arr[il + 1] = arr[j];
            arr[j] = pivot;

            if ir - i + 1 >= j - 1 {
                proof {
                    lemma_pending_push(stack@, i, ir, n as int);
                }
                stack.push(i);
                stack.push(ir);
                ir = j - 1;
            } else {
                proof {
                    lemma_pending_push(stack@, il, (j - 1) as usize, n as int);
                }
                stack.push(il);
                stack.push(j - 1);
                il = i;
            }
        }
    }
}

} // verus!
