//! Stable sorting: the order in which the items of a list stand once they are
//! sorted by a key, items with equal keys keeping their places.

use vstd::prelude::*;

use crate::text::{chars, views};

verus! {

/// Puts index `i` behind every index of `order` whose key is not greater.
pub open spec fn insert_index<K>(
    order: Seq<int>,
    keys: Seq<K>,
    le: spec_fn(K, K) -> bool,
    i: int,
) -> Seq<int>
    decreases order.len(),
{
    if order.len() == 0 {
        seq![i]
    } else if le(keys[order.last()], keys[i]) {
        order.push(i)
    } else {
        insert_index(order.drop_last(), keys, le, i).push(order.last())
    }
}

/// The indices of `keys` in ascending order of their keys, equal keys in the
/// order of their indices.
pub open spec fn stable_order<K>(keys: Seq<K>, le: spec_fn(K, K) -> bool) -> Seq<int>
    decreases keys.len(),
{
    if keys.len() == 0 {
        seq![]
    } else {
        insert_index(stable_order(keys.drop_last(), le), keys, le, keys.len() - 1)
    }
}

/// `le` compares any two keys, and does so transitively.
pub open spec fn is_total<K>(le: spec_fn(K, K) -> bool) -> bool {
    &&& forall|a: K, b: K| #[trigger] le(a, b) || le(b, a)
    &&& forall|a: K, b: K, c: K| #[trigger] le(a, b) && #[trigger] le(b, c) ==> le(a, c)
}

/// Index `a` comes before index `b`: its key is smaller, or equal and the index
/// is smaller.
pub open spec fn comes_before<K>(keys: Seq<K>, le: spec_fn(K, K) -> bool, a: int, b: int) -> bool {
    le(keys[a], keys[b]) && (le(keys[b], keys[a]) ==> a < b)
}

/// `order` holds each of the first `n` indices once.
pub open spec fn is_permutation(order: Seq<int>, n: int) -> bool {
    &&& order.len() == n
    &&& order.no_duplicates()
    &&& forall|j: int| 0 <= j < n ==> 0 <= #[trigger] order[j] < n
    &&& forall|i: int| 0 <= i < n ==> #[trigger] order.contains(i)
}

/// `order` is sorted by keys, and by index among equal keys.
pub open spec fn is_sorted_order<K>(order: Seq<int>, keys: Seq<K>, le: spec_fn(K, K) -> bool) -> bool {
    forall|a: int, b: int|
        0 <= a < b < order.len() ==> comes_before(keys, le, #[trigger] order[a], #[trigger] order[b])
}

proof fn lemma_insert_index<K>(order: Seq<int>, keys: Seq<K>, le: spec_fn(K, K) -> bool, i: int)
    requires
        is_total(le),
        is_sorted_order(order, keys, le),
        forall|j: int| 0 <= j < order.len() ==> 0 <= #[trigger] order[j] < i,
        order.no_duplicates(),
    ensures
        insert_index(order, keys, le, i).len() == order.len() + 1,
        is_sorted_order(insert_index(order, keys, le, i), keys, le),
        insert_index(order, keys, le, i).no_duplicates(),
        insert_index(order, keys, le, i).contains(i),
        forall|x: int|
            #![trigger insert_index(order, keys, le, i).contains(x)]
            #![trigger order.contains(x)]
            insert_index(order, keys, le, i).contains(x) <==> order.contains(x) || x == i,
    decreases order.len(),
{
    let r = insert_index(order, keys, le, i);
    if order.len() == 0 {
        assert(r[0] == i);
        assert forall|x: int| r.contains(x) <==> order.contains(x) || x == i by {}
    } else if le(keys[order.last()], keys[i]) {
        assert forall|a: int, b: int| 0 <= a < b < r.len() implies comes_before(
            keys,
            le,
            #[trigger] r[a],
            #[trigger] r[b],
        ) by {
            if b == order.len() {
                if a < order.len() - 1 {
                    assert(comes_before(keys, le, order[a], order[order.len() - 1]));
                }
                assert(le(keys[order[a]], keys[i]));
            } else {
                assert(comes_before(keys, le, order[a], order[b]));
            }
        }
        assert forall|x: int| r.contains(x) <==> order.contains(x) || x == i by {
            if order.contains(x) {
                let k = choose|k: int| 0 <= k < order.len() && order[k] == x;
                assert(r[k] == x);
            }
            assert(r[order.len() as int] == i);
        }
    } else {
        let o = order.drop_last();
        assert forall|a: int, b: int| 0 <= a < b < o.len() implies comes_before(
            keys,
            le,
            #[trigger] o[a],
            #[trigger] o[b],
        ) by {
            assert(comes_before(keys, le, order[a], order[b]));
        }
        lemma_insert_index(o, keys, le, i);
        let q = insert_index(o, keys, le, i);
        let l = order.last();
        assert(le(keys[i], keys[l]));
        assert forall|a: int, b: int| 0 <= a < b < r.len() implies comes_before(
            keys,
            le,
            #[trigger] r[a],
            #[trigger] r[b],
        ) by {
            if b == q.len() {
                assert(q[a] == r[a]);
                assert(q.contains(r[a]));
                if r[a] != i {
                    assert(o.contains(r[a]));
                    let k = choose|k: int| 0 <= k < o.len() && o[k] == r[a];
                    assert(comes_before(keys, le, order[k], order[order.len() - 1]));
                }
            } else {
                assert(comes_before(keys, le, q[a], q[b]));
            }
        }
        assert forall|x: int| r.contains(x) <==> order.contains(x) || x == i by {
            if order.contains(x) {
                let k = choose|k: int| 0 <= k < order.len() && order[k] == x;
                if k < o.len() {
                    assert(o[k] == x);
                    assert(o.contains(x));
                    assert(q.contains(x));
                    let m = choose|m: int| 0 <= m < q.len() && q[m] == x;
                    assert(r[m] == x);
                } else {
                    assert(r[q.len() as int] == x);
                }
            }
            if x == i {
                assert(q.contains(x));
                let m = choose|m: int| 0 <= m < q.len() && q[m] == x;
                assert(r[m] == x);
            }
            if r.contains(x) {
                let m = choose|m: int| 0 <= m < r.len() && r[m] == x;
                if m < q.len() {
                    assert(q.contains(x));
                    if x != i {
                        let k = choose|k: int| 0 <= k < o.len() && o[k] == x;
                        assert(order[k] == x);
                    }
                } else {
                    assert(order[order.len() - 1] == x);
                }
            }
        }
        assert(!q.contains(l)) by {
            if q.contains(l) {
                assert(o.contains(l));
                let k = choose|k: int| 0 <= k < o.len() && o[k] == l;
                assert(order[k] == order[order.len() - 1]);
            }
        }
        assert(r.no_duplicates()) by {
            assert forall|a: int, b: int| 0 <= a < b < r.len() implies r[a] != r[b] by {
                if b == q.len() {
                    assert(q.contains(q[a]));
                }
            }
        }
    }
}

proof fn lemma_insert_same_keys<K>(
    order: Seq<int>,
    keys: Seq<K>,
    other: Seq<K>,
    le: spec_fn(K, K) -> bool,
)
    requires
        forall|j: int| 0 <= j < order.len() ==> keys[#[trigger] order[j]] == other[order[j]],
        is_sorted_order(order, keys, le),
    ensures
        is_sorted_order(order, other, le),
{
    assert forall|a: int, b: int| 0 <= a < b < order.len() implies comes_before(
        other,
        le,
        #[trigger] order[a],
        #[trigger] order[b],
    ) by {
        assert(comes_before(keys, le, order[a], order[b]));
    }
}

/// Sorting keeps every index, and puts the indices in order; equal keys keep
/// their places.
pub proof fn law_stable_order<K>(keys: Seq<K>, le: spec_fn(K, K) -> bool)
    requires
        is_total(le),
    ensures
        is_permutation(stable_order(keys, le), keys.len() as int),
        is_sorted_order(stable_order(keys, le), keys, le),
    decreases keys.len(),
{
    if keys.len() > 0 {
        let n = keys.len() - 1;
        let p = keys.drop_last();
        let o = stable_order(p, le);
        law_stable_order(p, le);
        assert forall|j: int| 0 <= j < o.len() implies p[#[trigger] o[j]] == keys[o[j]] by {}
        lemma_insert_same_keys(o, p, keys, le);
        lemma_insert_index(o, keys, le, n);
        let r = stable_order(keys, le);
        assert forall|j: int| 0 <= j < r.len() implies 0 <= #[trigger] r[j] < keys.len() by {
            assert(r.contains(r[j]));
            if r[j] != n {
                assert(o.contains(r[j]));
                let k = choose|k: int| 0 <= k < o.len() && o[k] == r[j];
                assert(0 <= o[k] < n);
            }
        }
        assert forall|i: int| 0 <= i < keys.len() implies #[trigger] r.contains(i) by {
            if i < n {
                assert(o.contains(i));
            }
        }
    }
}

proof fn lemma_insert_at<K>(
    order: Seq<int>,
    keys: Seq<K>,
    le: spec_fn(K, K) -> bool,
    i: int,
    p: int,
)
    requires
        0 <= p <= order.len(),
        forall|j: int| p <= j < order.len() ==> !le(keys[#[trigger] order[j]], keys[i]),
        p > 0 ==> le(keys[order[p - 1]], keys[i]),
    ensures
        insert_index(order, keys, le, i) == order.insert(p, i),
    decreases order.len(),
{
    if order.len() > 0 {
        if p == order.len() {
            assert(order.insert(p, i) =~= order.push(i));
        } else {
            assert(!le(keys[order[order.len() - 1]], keys[i]));
            lemma_insert_at(order.drop_last(), keys, le, i, p);
            assert(order.drop_last().insert(p, i).push(order.last()) =~= order.insert(p, i));
        }
    } else {
        assert(order.insert(p, i) =~= seq![i]);
    }
}

proof fn lemma_insert_prefix<K>(
    order: Seq<int>,
    keys: Seq<K>,
    other: Seq<K>,
    le: spec_fn(K, K) -> bool,
    i: int,
)
    requires
        keys[i] == other[i],
        forall|j: int| 0 <= j < order.len() ==> keys[#[trigger] order[j]] == other[order[j]],
    ensures
        insert_index(order, keys, le, i) == insert_index(order, other, le, i),
    decreases order.len(),
{
    if order.len() > 0 {
        assert(keys[order[order.len() - 1]] == other[order[order.len() - 1]]);
        assert forall|j: int| 0 <= j < order.drop_last().len() implies keys[#[trigger] order.drop_last()[j]]
            == other[order.drop_last()[j]] by {
            assert(order.drop_last()[j] == order[j]);
        }
        lemma_insert_prefix(order.drop_last(), keys, other, le, i);
    }
}

/// The integers of a list of indices.
pub open spec fn indices(v: Seq<usize>) -> Seq<int> {
    v.map_values(|i: usize| i as int)
}

/// The items in the given order.
pub open spec fn picked<A>(items: Seq<A>, order: Seq<int>) -> Seq<A> {
    order.map_values(|i: int| items[i])
}

// ------------------------------------------------------------ the best of a list

/// `r` holds the best of the kept items, and `at` says where each stood: no place is
/// taken twice, better ranks come before worse ones, equal ranks keep their order, and a
/// kept item is missing only where there are `k` already, none of them worse.
pub open spec fn is_best_at<A>(
    items: Seq<A>,
    keep: spec_fn(A) -> bool,
    rank: spec_fn(A) -> int,
    k: nat,
    r: Seq<A>,
    at: Seq<int>,
) -> bool {
    &&& r.len() <= k
    &&& at.len() == r.len()
    &&& at.no_duplicates()
    &&& forall|j: int|
        0 <= j < r.len() ==> 0 <= #[trigger] at[j] < items.len() && r[j] == items[at[j]] && keep(
            r[j],
        )
    &&& forall|a: int, b: int|
        0 <= a < b < r.len() ==> rank(#[trigger] r[a]) > rank(#[trigger] r[b]) || (rank(r[a])
            == rank(r[b]) && at[a] < at[b])
    &&& forall|i: int|
        0 <= i < items.len() && keep(#[trigger] items[i]) && !at.contains(i) ==> r.len() == k
            && forall|a: int|
            0 <= a < r.len() ==> rank(#[trigger] r[a]) > rank(items[i]) || (rank(r[a]) == rank(
                items[i],
            ) && at[a] < i)
}

/// `r` holds the best of the kept items, best first, `k` of them or all.
pub open spec fn is_best<A>(
    items: Seq<A>,
    keep: spec_fn(A) -> bool,
    rank: spec_fn(A) -> int,
    k: nat,
    r: Seq<A>,
) -> bool {
    exists|at: Seq<int>| is_best_at(items, keep, rank, k, r, at)
}

/// Where the items that a filter keeps stood: in their order, and none is left out.
pub proof fn lemma_kept_places<A>(items: Seq<A>, keep: spec_fn(A) -> bool) -> (at: Seq<int>)
    ensures
        at.len() == items.filter(keep).len(),
        forall|j: int|
            0 <= j < at.len() ==> 0 <= #[trigger] at[j] < items.len() && items.filter(keep)[j]
                == items[at[j]] && keep(items[at[j]]),
        forall|a: int, b: int| 0 <= a < b < at.len() ==> #[trigger] at[a] < #[trigger] at[b],
        forall|i: int| 0 <= i < items.len() && keep(#[trigger] items[i]) ==> at.contains(i),
    decreases items.len(),
{
    reveal_with_fuel(Seq::filter, 2);
    if items.len() == 0 {
        seq![]
    } else {
        let p = items.drop_last();
        let n = items.len() - 1;
        let before = lemma_kept_places(p, keep);
        let at = if keep(items.last()) {
            before.push(n)
        } else {
            before
        };
        assert forall|j: int| 0 <= j < at.len() implies 0 <= #[trigger] at[j] < items.len()
            && items.filter(keep)[j] == items[at[j]] && keep(items[at[j]]) by {
            if j < before.len() {
                assert(at[j] == before[j]);
                assert(p[before[j]] == items[before[j]]);
            }
        }
        assert forall|a: int, b: int| 0 <= a < b < at.len() implies #[trigger] at[a]
            < #[trigger] at[b] by {
            assert(at[a] == before[a]);
            if b < before.len() {
                assert(at[b] == before[b]);
            }
        }
        assert forall|i: int| 0 <= i < items.len() && keep(
            #[trigger] items[i],
        ) implies at.contains(i) by {
            if i < n {
                assert(p[i] == items[i]);
                assert(before.contains(i));
                let j = choose|j: int| 0 <= j < before.len() && before[j] == i;
                assert(at[j] == i);
            } else {
                assert(at[before.len() as int] == i);
            }
        }
        at
    }
}

/// To filter twice is to filter by both.
pub proof fn lemma_filter_twice<A>(
    items: Seq<A>,
    first: spec_fn(A) -> bool,
    second: spec_fn(A) -> bool,
    both: spec_fn(A) -> bool,
)
    requires
        forall|x: A| #[trigger] both(x) <==> first(x) && second(x),
    ensures
        items.filter(first).filter(second) == items.filter(both),
    decreases items.len(),
{
    reveal_with_fuel(Seq::filter, 2);
    if items.len() > 0 {
        let p = items.drop_last();
        lemma_filter_twice(p, first, second, both);
        let x = items.last();
        assert(both(x) <==> first(x) && second(x));
        if first(x) {
            let f = items.filter(first);
            assert(f.drop_last() =~= p.filter(first));
            assert(f.last() == x);
        }
    }
}

/// What a filter keeps of a list without repetitions, as a set.
pub proof fn lemma_kept_set<A>(items: Seq<A>, keep: spec_fn(A) -> bool)
    requires
        items.no_duplicates(),
    ensures
        items.filter(keep).to_set() == items.to_set().filter(keep),
        items.filter(keep).len() == items.to_set().filter(keep).len(),
        items.filter(keep).no_duplicates(),
{
    let at = lemma_kept_places(items, keep);
    let kept = items.filter(keep);
    assert(kept.no_duplicates()) by {
        assert forall|a: int, b: int| 0 <= a < b < kept.len() implies kept[a] != kept[b] by {
            assert(at[a] < at[b]);
            assert(kept[a] == items[at[a]] && kept[b] == items[at[b]]);
        }
    }
    assert forall|x: A| kept.to_set().contains(x) <==> #[trigger] items.to_set().filter(
        keep,
    ).contains(x) by {
        if kept.contains(x) {
            let j = choose|j: int| 0 <= j < kept.len() && kept[j] == x;
            assert(items[at[j]] == x);
        }
        if items.to_set().filter(keep).contains(x) {
            let i = choose|i: int| 0 <= i < items.len() && items[i] == x;
            assert(at.contains(i));
            let j = choose|j: int| 0 <= j < at.len() && at[j] == i;
            assert(kept[j] == x);
        }
    }
    assert(kept.to_set() =~= items.to_set().filter(keep));
    kept.unique_seq_to_set();
}

/// The first `k` of the kept items, sorted by falling rank, are the best.
pub proof fn lemma_best<A>(
    items: Seq<A>,
    keep: spec_fn(A) -> bool,
    rank: spec_fn(A) -> int,
    k: nat,
    keys: Seq<(int, int)>,
    r: Seq<A>,
)
    requires
        keys.len() == items.filter(keep).len(),
        forall|j: int|
            0 <= j < keys.len() ==> #[trigger] keys[j] == (-rank(items.filter(keep)[j]), 0int),
        ({
            let all = picked(items.filter(keep), stable_order(keys, by_pair()));
            r == if all.len() <= k {
                all
            } else {
                all.take(k as int)
            }
        }),
    ensures
        is_best(items, keep, rank, k, r),
{
    let kept = items.filter(keep);
    let place = lemma_kept_places(items, keep);
    let order = stable_order(keys, by_pair());
    lemma_by_pair();
    law_stable_order(keys, by_pair());
    let at = Seq::new(r.len(), |j: int| place[order[j]]);
    assert forall|j: int| 0 <= j < r.len() implies 0 <= #[trigger] at[j] < items.len() && r[j]
        == items[at[j]] && keep(r[j]) by {
        assert(0 <= order[j] < kept.len());
        assert(0 <= place[order[j]] < items.len());
    }
    assert forall|a: int, b: int| 0 <= a < b < r.len() implies {
        &&& rank(#[trigger] r[a]) > rank(#[trigger] r[b]) || (rank(r[a]) == rank(r[b]) && at[a]
            < at[b])
        &&& at[a] != at[b]
    } by {
        assert(comes_before(keys, by_pair(), order[a], order[b]));
        assert(0 <= order[a] < kept.len() && 0 <= order[b] < kept.len());
        assert(keys[order[a]] == (-rank(kept[order[a]]), 0int));
        assert(keys[order[b]] == (-rank(kept[order[b]]), 0int));
        if order[a] < order[b] {
            assert(place[order[a]] < place[order[b]]);
        } else {
            assert(order[a] != order[b]);
            assert(place[order[b]] < place[order[a]]);
        }
    }
    assert(at.no_duplicates()) by {
        assert forall|a: int, b: int| 0 <= a < b < at.len() implies at[a] != at[b] by {
            assert(rank(r[a]) >= rank(r[b]));
        }
    }
    assert forall|i: int| 0 <= i < items.len() && keep(#[trigger] items[i]) && !at.contains(
        i,
    ) implies r.len() == k && forall|a: int|
        0 <= a < r.len() ==> rank(#[trigger] r[a]) > rank(items[i]) || (rank(r[a]) == rank(
            items[i],
        ) && at[a] < i) by {
        assert(place.contains(i));
        let j = choose|j: int| 0 <= j < place.len() && place[j] == i;
        assert(order.contains(j));
        let m = choose|m: int| 0 <= m < order.len() && order[m] == j;
        if m < r.len() {
            assert(at[m] == i);
        }
        assert(kept[j] == items[i]);
        assert forall|a: int| 0 <= a < r.len() implies rank(#[trigger] r[a]) > rank(items[i]) || (
        rank(r[a]) == rank(items[i]) && at[a] < i) by {
            assert(comes_before(keys, by_pair(), order[a], order[m]));
            assert(0 <= order[a] < kept.len());
            assert(keys[order[a]] == (-rank(kept[order[a]]), 0int));
            assert(keys[j] == (-rank(kept[j]), 0int));
            if order[a] < j {
                assert(place[order[a]] < place[j]);
            }
        }
    }
    assert(is_best_at(items, keep, rank, k, r, at));
}

// ------------------------------------------------------------ pairs of numbers

/// The integers of a list of pairs.
pub open spec fn pairs(v: Seq<(i128, i128)>) -> Seq<(int, int)> {
    v.map_values(|p: (i128, i128)| (p.0 as int, p.1 as int))
}

/// Pairs ordered by their first number, then by their second.
pub open spec fn by_pair() -> spec_fn((int, int), (int, int)) -> bool {
    |a: (int, int), b: (int, int)| a.0 < b.0 || (a.0 == b.0 && a.1 <= b.1)
}

/// Pairs are totally ordered.
pub proof fn lemma_by_pair()
    ensures
        is_total(by_pair()),
{
}

/// The indices of the pairs in ascending order.
pub fn order_pairs(keys: &Vec<(i128, i128)>) -> (r: Vec<usize>)
    ensures
        indices(r@) == stable_order(pairs(keys@), by_pair()),
        is_permutation(indices(r@), keys@.len() as int),
{
    let mut r: Vec<usize> = Vec::new();
    let mut i: usize = 0;
    let ghost all = pairs(keys@);
    let ghost le = by_pair();
    assert(indices(r@) =~= stable_order(all.take(0), le));
    while i < keys.len()
        invariant
            i <= keys.len(),
            all == pairs(keys@),
            le == by_pair(),
            r.len() == i,
            indices(r@) == stable_order(all.take(i as int), le),
            forall|j: int| 0 <= j < i ==> #[trigger] r@[j] < i,
        decreases keys.len() - i,
    {
        let mut p: usize = i;
        let ghost o = indices(r@);
        assert(all[i as int] == (keys@[i as int].0 as int, keys@[i as int].1 as int));
        while p > 0 && !(keys[r[p - 1]].0 < keys[i].0 || (keys[r[p - 1]].0 == keys[i].0
            && keys[r[p - 1]].1 <= keys[i].1))
            invariant
                p <= i < keys.len(),
                r.len() == i,
                o == indices(r@),
                all == pairs(keys@),
                le == by_pair(),
                forall|j: int| 0 <= j < i ==> #[trigger] r@[j] < i,
                forall|j: int| p <= j < i ==> !le(all[#[trigger] o[j]], all[i as int]),
            decreases p,
        {
            p -= 1;
            assert(o[p as int] == r@[p as int]);
        }
        proof {
            if p > 0 {
                assert(o[p - 1] == r@[p - 1]);
                assert(le(all[o[p - 1]], all[i as int]));
            }
            let now = all.take(i + 1);
            assert(now.drop_last() =~= all.take(i as int));
            assert forall|j: int| 0 <= j < o.len() implies all[#[trigger] o[j]] == now[o[j]] by {
                assert(o[j] == r@[j]);
            }
            lemma_insert_prefix(o, all, now, le, i as int);
            lemma_insert_at(o, all, le, i as int, p as int);
        }
        let ghost before = r@;
        r.insert(p, i);
        assert(indices(r@) =~= o.insert(p as int, i as int));
        assert forall|j: int| 0 <= j < i + 1 implies #[trigger] r@[j] < i + 1 by {
            if j < p {
                assert(r@[j] == before[j]);
            } else if j > p {
                assert(r@[j] == before[j - 1]);
            }
        }
        i += 1;
    }
    proof {
        assert(all.take(i as int) =~= all);
        lemma_by_pair();
        law_stable_order(all, le);
    }
    r
}

// ----------------------------------------------------------------------- texts

/// The first text stands before the second in a dictionary, or is the same.
pub open spec fn text_le(a: Seq<char>, b: Seq<char>) -> bool
    decreases a.len(),
{
    if a.len() == 0 {
        true
    } else if b.len() == 0 {
        false
    } else {
        a[0] < b[0] || (a[0] == b[0] && text_le(a.skip(1), b.skip(1)))
    }
}

/// Texts ordered as in a dictionary.
pub open spec fn by_text() -> spec_fn(Seq<char>, Seq<char>) -> bool {
    |a: Seq<char>, b: Seq<char>| text_le(a, b)
}

proof fn lemma_text_le_total(a: Seq<char>, b: Seq<char>)
    ensures
        text_le(a, b) || text_le(b, a),
    decreases a.len(),
{
    if a.len() > 0 && b.len() > 0 {
        lemma_text_le_total(a.skip(1), b.skip(1));
    }
}

proof fn lemma_text_le_transitive(a: Seq<char>, b: Seq<char>, c: Seq<char>)
    requires
        text_le(a, b),
        text_le(b, c),
    ensures
        text_le(a, c),
    decreases a.len(),
{
    if a.len() > 0 && b.len() > 0 && c.len() > 0 {
        if a[0] == b[0] && b[0] == c[0] {
            lemma_text_le_transitive(a.skip(1), b.skip(1), c.skip(1));
        }
    }
}

/// Texts are totally ordered.
pub proof fn lemma_by_text()
    ensures
        is_total(by_text()),
{
    let le = by_text();
    assert forall|a: Seq<char>, b: Seq<char>| #[trigger] le(a, b) || le(b, a) by {
        lemma_text_le_total(a, b);
    }
    assert forall|a: Seq<char>, b: Seq<char>, c: Seq<char>| #[trigger]
        le(a, b) && #[trigger] le(b, c) implies le(a, c) by {
        lemma_text_le_transitive(a, b, c);
    }
}

/// Whether the first text stands before the second in a dictionary, or is the same.
pub fn not_after(a: &str, b: &str) -> (r: bool)
    ensures
        r == text_le(a@, b@),
{
    let x = chars(a);
    let y = chars(b);
    let mut i: usize = 0;
    assert(a@.skip(0) =~= a@);
    assert(b@.skip(0) =~= b@);
    while i < x.len() && i < y.len()
        invariant
            x@ == a@,
            y@ == b@,
            i <= x.len(),
            i <= y.len(),
            text_le(a@, b@) == text_le(a@.skip(i as int), b@.skip(i as int)),
        decreases x.len() - i,
    {
        if x[i] < y[i] {
            return true;
        }
        if x[i] > y[i] {
            return false;
        }
        assert(a@.skip(i as int).skip(1) =~= a@.skip(i + 1));
        assert(b@.skip(i as int).skip(1) =~= b@.skip(i + 1));
        i += 1;
    }
    i == x.len()
}

/// The indices of the texts in dictionary order.
pub fn order_texts(keys: &Vec<String>) -> (r: Vec<usize>)
    ensures
        indices(r@) == stable_order(views(keys@), by_text()),
        is_permutation(indices(r@), keys@.len() as int),
{
    let mut r: Vec<usize> = Vec::new();
    let mut i: usize = 0;
    let ghost all = views(keys@);
    let ghost le = by_text();
    assert(indices(r@) =~= stable_order(all.take(0), le));
    while i < keys.len()
        invariant
            i <= keys.len(),
            all == views(keys@),
            le == by_text(),
            r.len() == i,
            indices(r@) == stable_order(all.take(i as int), le),
            forall|j: int| 0 <= j < i ==> #[trigger] r@[j] < i,
        decreases keys.len() - i,
    {
        let mut p: usize = i;
        let ghost o = indices(r@);
        while p > 0 && !not_after(keys[r[p - 1]].as_str(), keys[i].as_str())
            invariant
                p <= i < keys.len(),
                r.len() == i,
                o == indices(r@),
                all == views(keys@),
                le == by_text(),
                forall|j: int| 0 <= j < i ==> #[trigger] r@[j] < i,
                forall|j: int| p <= j < i ==> !le(all[#[trigger] o[j]], all[i as int]),
            decreases p,
        {
            p -= 1;
            assert(o[p as int] == r@[p as int]);
        }
        proof {
            if p > 0 {
                assert(o[p - 1] == r@[p - 1]);
                assert(le(all[o[p - 1]], all[i as int]));
            }
            let now = all.take(i + 1);
            assert(now.drop_last() =~= all.take(i as int));
            assert forall|j: int| 0 <= j < o.len() implies all[#[trigger] o[j]] == now[o[j]] by {
                assert(o[j] == r@[j]);
            }
            lemma_insert_prefix(o, all, now, le, i as int);
            lemma_insert_at(o, all, le, i as int, p as int);
        }
        let ghost before = r@;
        r.insert(p, i);
        assert(indices(r@) =~= o.insert(p as int, i as int));
        assert forall|j: int| 0 <= j < i + 1 implies #[trigger] r@[j] < i + 1 by {
            if j < p {
                assert(r@[j] == before[j]);
            } else if j > p {
                assert(r@[j] == before[j - 1]);
            }
        }
        i += 1;
    }
    proof {
        assert(all.take(i as int) =~= all);
        lemma_by_text();
        law_stable_order(all, le);
    }
    r
}

/// Texts are ordered as in a dictionary: a text comes before another where it is the
/// beginning of it, or where at the first difference its character is the smaller one.
pub proof fn law_dictionary_order(a: Seq<char>, b: Seq<char>)
    ensures
        text_le(a, b) <==> a.is_prefix_of(b) || exists|i: int|
            {
                &&& 0 <= i < a.len()
                &&& i < b.len()
                &&& #[trigger] a[i] < b[i]
                &&& a.take(i) == b.take(i)
            },
    decreases a.len(),
{
    if a.len() == 0 {
        assert(a =~= b.subrange(0, 0));
    } else if b.len() > 0 {
        let x = a.skip(1);
        let y = b.skip(1);
        law_dictionary_order(x, y);
        if a[0] < b[0] {
            assert(a.take(0) =~= b.take(0));
        } else if a[0] == b[0] {
            if text_le(x, y) {
                if x.is_prefix_of(y) {
                    assert(x =~= y.subrange(0, x.len() as int));
                    assert forall|i: int| 0 <= i < a.len() implies a[i] == b[i] by {
                        if i > 0 {
                            assert(x[i - 1] == y.subrange(0, x.len() as int)[i - 1]);
                        }
                    }
                    assert(a =~= b.subrange(0, a.len() as int));
                } else {
                    let i = choose|i: int|
                        {
                            &&& 0 <= i < x.len()
                            &&& i < y.len()
                            &&& #[trigger] x[i] < y[i]
                            &&& x.take(i) == y.take(i)
                        };
                    assert(a[i + 1] < b[i + 1]);
                    assert(a.take(i + 1) =~= b.take(i + 1)) by {
                        assert forall|j: int| 0 <= j < i + 1 implies a[j] == b[j] by {
                            if j > 0 {
                                assert(x.take(i)[j - 1] == y.take(i)[j - 1]);
                            }
                        }
                    }
                }
            }
            if a.is_prefix_of(b) {
                assert(a =~= b.subrange(0, a.len() as int));
                assert(x =~= y.subrange(0, x.len() as int)) by {
                    assert forall|j: int| 0 <= j < x.len() implies x[j] == y[j] by {
                        assert(a[j + 1] == b.subrange(0, a.len() as int)[j + 1]);
                    }
                }
            }
            if exists|i: int|
                {
                    &&& 0 <= i < a.len()
                    &&& i < b.len()
                    &&& #[trigger] a[i] < b[i]
                    &&& a.take(i) == b.take(i)
                } {
                let i = choose|i: int|
                    {
                        &&& 0 <= i < a.len()
                        &&& i < b.len()
                        &&& #[trigger] a[i] < b[i]
                        &&& a.take(i) == b.take(i)
                    };
                assert(x[i - 1] < y[i - 1]);
                assert(x.take(i - 1) =~= y.take(i - 1)) by {
                    assert forall|j: int| 0 <= j < i - 1 implies x[j] == y[j] by {
                        assert(a.take(i)[j + 1] == b.take(i)[j + 1]);
                    }
                }
            }
        } else {
            if a.is_prefix_of(b) {
                assert(a[0] == b.subrange(0, a.len() as int)[0]);
            }
            if exists|i: int|
                {
                    &&& 0 <= i < a.len()
                    &&& i < b.len()
                    &&& #[trigger] a[i] < b[i]
                    &&& a.take(i) == b.take(i)
                } {
                let i = choose|i: int|
                    {
                        &&& 0 <= i < a.len()
                        &&& i < b.len()
                        &&& #[trigger] a[i] < b[i]
                        &&& a.take(i) == b.take(i)
                    };
                if i > 0 {
                    assert(a.take(i)[0] == b.take(i)[0]);
                }
            }
        }
    }
}

} // verus!
