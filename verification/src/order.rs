//! The alphabetical order in which a list of texts is visited: a stable sort of
//! the positions of the list by the text found at each.

use vstd::prelude::*;
use crate::text::{
    chars_le, lemma_text_le_antisymmetric, lemma_text_le_reflexive, lemma_text_le_total,
    lemma_text_le_transitive, text_le,
};

verus! {

/// `order` with position `i` put behind the last position whose key is before
/// or equal to the key at `i`.
pub open spec fn insert_position(keys: Seq<Seq<char>>, order: Seq<int>, i: int) -> Seq<int>
    decreases order.len(),
{
    if order.len() == 0 {
        seq![i]
    } else if text_le(keys[order.last()], keys[i]) {
        order.push(i)
    } else {
        insert_position(keys, order.drop_last(), i).push(order.last())
    }
}

/// The first `n` positions of `keys`, ordered by key; positions with equal
/// keys stay in their order.
pub open spec fn order_of_first(keys: Seq<Seq<char>>, n: nat) -> Seq<int>
    decreases n,
{
    if n == 0 {
        Seq::empty()
    } else {
        insert_position(keys, order_of_first(keys, (n - 1) as nat), n - 1)
    }
}

/// The positions of `keys` in the order in which their keys sort.
pub open spec fn sorted_order(keys: Seq<Seq<char>>) -> Seq<int> {
    order_of_first(keys, keys.len())
}

/// The views of a vector of character vectors.
pub open spec fn keys_view(keys: Seq<Vec<char>>) -> Seq<Seq<char>> {
    keys.map_values(|k: Vec<char>| k@)
}

/// A vector of indices as a sequence of mathematical integers.
pub open spec fn positions(order: Seq<usize>) -> Seq<int> {
    order.map_values(|i: usize| i as int)
}

/// Every element of `order` is a position below `n`.
pub open spec fn within(order: Seq<int>, n: int) -> bool {
    forall|k: int| 0 <= k < order.len() ==> 0 <= #[trigger] order[k] < n
}

/// The keys found along `order` never go down.
pub open spec fn ascending(keys: Seq<Seq<char>>, order: Seq<int>) -> bool {
    forall|a: int, b: int|
        0 <= a < b < order.len() ==> text_le(#[trigger] keys[order[a]], #[trigger] keys[order[b]])
}

/// Positions with equal keys appear in `order` in their own order, and no
/// position appears twice.
pub open spec fn stable(keys: Seq<Seq<char>>, order: Seq<int>) -> bool {
    forall|a: int, b: int|
        0 <= a < b < order.len() && text_le(keys[#[trigger] order[b]], keys[#[trigger] order[a]])
            ==> order[a] < order[b]
}

proof fn lemma_insert_at(keys: Seq<Seq<char>>, order: Seq<int>, i: int, p: int)
    requires
        0 <= p <= order.len(),
        p > 0 ==> text_le(keys[order[p - 1]], keys[i]),
        forall|j: int| p <= j < order.len() ==> !text_le(keys[#[trigger] order[j]], keys[i]),
    ensures
        insert_position(keys, order, i) == order.insert(p, i),
    decreases order.len(),
{
    if order.len() == 0 {
        assert(seq![i] =~= order.insert(p, i));
    } else if p == order.len() {
        assert(order.push(i) =~= order.insert(p, i));
    } else {
        let rest = order.drop_last();
        assert(!text_le(keys[order[order.len() - 1]], keys[i]));
        lemma_insert_at(keys, rest, i, p);
        assert(rest.insert(p, i).push(order.last()) =~= order.insert(p, i));
    }
}

/// Where `insert_position` puts `i`, and what it leaves as it was.
proof fn lemma_insert_shape(keys: Seq<Seq<char>>, order: Seq<int>, i: int) -> (p: int)
    ensures
        0 <= p <= order.len(),
        insert_position(keys, order, i) == order.insert(p, i),
        p > 0 ==> text_le(keys[order[p - 1]], keys[i]),
        forall|j: int| p <= j < order.len() ==> !text_le(keys[#[trigger] order[j]], keys[i]),
    decreases order.len(),
{
    if order.len() == 0 {
        assert(seq![i] =~= order.insert(0, i));
        0
    } else if text_le(keys[order.last()], keys[i]) {
        assert(order.push(i) =~= order.insert(order.len() as int, i));
        order.len() as int
    } else {
        let rest = order.drop_last();
        let p = lemma_insert_shape(keys, rest, i);
        assert(rest.insert(p, i).push(order.last()) =~= order.insert(p, i));
        assert forall|j: int| p <= j < order.len() implies !text_le(
            keys[#[trigger] order[j]],
            keys[i],
        ) by {
            if j < rest.len() {
                assert(rest[j] == order[j]);
            }
        }
        if p > 0 {
            assert(rest[p - 1] == order[p - 1]);
        }
        p
    }
}

/// The order of the first `n` positions holds each of them once, goes up by
/// key, and keeps positions with equal keys in their order.
pub proof fn lemma_order_of_first(keys: Seq<Seq<char>>, n: nat)
    requires
        n <= keys.len(),
    ensures
        order_of_first(keys, n).len() == n,
        within(order_of_first(keys, n), n as int),
        ascending(keys, order_of_first(keys, n)),
        stable(keys, order_of_first(keys, n)),
        forall|i: int| 0 <= i < n ==> order_of_first(keys, n).contains(i),
    decreases n,
{
    if n > 0 {
        let prev = order_of_first(keys, (n - 1) as nat);
        let i = n - 1;
        lemma_order_of_first(keys, (n - 1) as nat);
        let p = lemma_insert_shape(keys, prev, i);
        let next = prev.insert(p, i);
        assert(next == order_of_first(keys, n));
        assert forall|a: int, b: int| 0 <= a < b < next.len() implies text_le(
            #[trigger] keys[next[a]],
            #[trigger] keys[next[b]],
        ) by {
            if b < p {
            } else if b == p {
                if a < p - 1 {
                    assert(text_le(keys[prev[a]], keys[prev[p - 1]]));
                    lemma_text_le_transitive(keys[prev[a]], keys[prev[p - 1]], keys[i]);
                }
            } else if a < p {
                assert(next[b] == prev[b - 1]);
            } else if a == p {
                assert(next[b] == prev[b - 1]);
                lemma_text_le_total(keys[prev[b - 1]], keys[i]);
            } else {
                assert(next[a] == prev[a - 1]);
                assert(next[b] == prev[b - 1]);
            }
        }
        assert forall|a: int, b: int|
            0 <= a < b < next.len() && text_le(
                keys[#[trigger] next[b]],
                keys[#[trigger] next[a]],
            ) implies next[a] < next[b] by {
            if b < p {
            } else if b == p {
            } else if a < p {
                assert(next[b] == prev[b - 1]);
            } else if a == p {
                assert(next[b] == prev[b - 1]);
            } else {
                assert(next[a] == prev[a - 1]);
                assert(next[b] == prev[b - 1]);
            }
        }
        assert forall|j: int| 0 <= j < n implies next.contains(j) by {
            if j == i {
                assert(next[p] == j);
            } else {
                assert(prev.contains(j));
                let k = choose|k: int| 0 <= k < prev.len() && prev[k] == j;
                if k < p {
                    assert(next[k] == j);
                } else {
                    assert(next[k + 1] == j);
                }
            }
        }
    }
}

/// The sorted order of `keys` holds every position once, goes up by key, and
/// keeps positions with equal keys in their order.
pub proof fn lemma_sorted_order(keys: Seq<Seq<char>>)
    ensures
        sorted_order(keys).len() == keys.len(),
        within(sorted_order(keys), keys.len() as int),
        ascending(keys, sorted_order(keys)),
        stable(keys, sorted_order(keys)),
        forall|i: int| 0 <= i < keys.len() ==> sorted_order(keys).contains(i),
{
    lemma_order_of_first(keys, keys.len());
}

/// Computes the sorted order of `keys` by insertion.
pub fn order_by_key(keys: &Vec<Vec<char>>) -> (order: Vec<usize>)
    ensures
        positions(order@) == sorted_order(keys_view(keys@)),
        order@.len() == keys@.len(),
        forall|k: int| 0 <= k < order@.len() ==> #[trigger] order@[k] < keys@.len(),
{
    let ghost ks = keys_view(keys@);
    let mut order: Vec<usize> = Vec::new();
    let mut i: usize = 0;
    while i < keys.len()
        invariant
            i <= keys.len(),
            ks == keys_view(keys@),
            positions(order@) == order_of_first(ks, i as nat),
            order@.len() == i,
            forall|k: int| 0 <= k < order@.len() ==> #[trigger] order@[k] < i,
        decreases keys.len() - i,
    {
        let mut p: usize = order.len();
        while p > 0 && !chars_le(&keys[order[p - 1]], &keys[i])
            invariant
                p <= order.len(),
                i < keys.len(),
                ks == keys_view(keys@),
                forall|k: int| 0 <= k < order@.len() ==> #[trigger] order@[k] < i,
                forall|j: int|
                    p <= j < order@.len() ==> !text_le(
                        ks[#[trigger] positions(order@)[j]],
                        ks[i as int],
                    ),
            decreases p,
        {
            p -= 1;
        }
        proof {
            lemma_insert_at(ks, positions(order@), i as int, p as int);
            assert(positions(order@.insert(p as int, i)) =~= positions(order@).insert(
                p as int,
                i as int,
            ));
        }
        order.insert(p, i);
        i += 1;
    }
    order
}

/// Whether position `i` comes before position `j` or is the same: by key, and
/// among equal keys by position.
pub open spec fn position_le(keys: Seq<Seq<char>>, i: int, j: int) -> bool {
    if keys[i] == keys[j] {
        i <= j
    } else {
        text_le(keys[i], keys[j])
    }
}

proof fn lemma_position_le_is_total_order(keys: Seq<Seq<char>>)
    ensures
        vstd::relations::total_ordering(|i: int, j: int| position_le(keys, i, j)),
{
    let leq = |i: int, j: int| position_le(keys, i, j);
    assert forall|x: int, y: int| #[trigger] leq(x, y) && #[trigger] leq(y, x) implies x == y by {
        if keys[x] != keys[y] {
            lemma_text_le_antisymmetric(keys[x], keys[y]);
        }
    }
    assert forall|x: int, y: int, z: int| #[trigger] leq(x, y) && #[trigger] leq(y, z) implies leq(
        x,
        z,
    ) by {
        lemma_text_le_reflexive(keys[y]);
        lemma_text_le_transitive(keys[x], keys[y], keys[z]);
        if keys[x] == keys[z] && keys[x] != keys[y] {
            lemma_text_le_antisymmetric(keys[x], keys[y]);
        }
    }
    assert forall|x: int, y: int| #[trigger] leq(x, y) || #[trigger] leq(y, x) by {
        lemma_text_le_total(keys[x], keys[y]);
    }
}

/// The sorted order is the only stable sort: any rearrangement of it whose
/// keys never go down and which keeps positions with equal keys in their
/// order is the sorted order itself.
pub proof fn lemma_sorted_order_is_unique(keys: Seq<Seq<char>>, other: Seq<int>)
    requires
        other.to_multiset() == sorted_order(keys).to_multiset(),
        ascending(keys, other),
        stable(keys, other),
    ensures
        other == sorted_order(keys),
{
    let leq = |i: int, j: int| position_le(keys, i, j);
    let order = sorted_order(keys);
    lemma_sorted_order(keys);
    lemma_position_le_is_total_order(keys);
    assert forall|a: int, b: int| 0 <= a < b < order.len() implies #[trigger] leq(
        order[a],
        order[b],
    ) by {
        lemma_text_le_reflexive(keys[order[a]]);
    }
    assert forall|a: int, b: int| 0 <= a < b < other.len() implies #[trigger] leq(
        other[a],
        other[b],
    ) by {
        lemma_text_le_reflexive(keys[other[a]]);
    }
    vstd::seq_lib::lemma_sorted_unique(other, order, leq);
}

/// The items found at the positions `order`, in that order.
pub open spec fn arranged<T>(items: Seq<T>, order: Seq<int>) -> Seq<T> {
    Seq::new(order.len(), |k: int| items[order[k]])
}

/// Arranging the first `n` items by their sorted order moves them and neither
/// adds nor loses one.
pub proof fn lemma_arranged_first_is_permutation<T>(items: Seq<T>, keys: Seq<Seq<char>>, n: nat)
    requires
        n <= items.len(),
        items.len() == keys.len(),
    ensures
        arranged(items, order_of_first(keys, n)).to_multiset() == items.take(n as int).to_multiset(),
    decreases n,
{
    if n == 0 {
        assert(arranged(items, order_of_first(keys, 0)) =~= items.take(0));
    } else {
        let prev = order_of_first(keys, (n - 1) as nat);
        lemma_arranged_first_is_permutation(items, keys, (n - 1) as nat);
        lemma_order_of_first(keys, (n - 1) as nat);
        let p = lemma_insert_shape(keys, prev, n - 1);
        assert(arranged(items, prev.insert(p, n - 1)) =~= arranged(items, prev).insert(
            p,
            items[n - 1],
        ));
        vstd::seq_lib::to_multiset_insert(arranged(items, prev), p, items[n - 1]);
        assert(items.take(n as int) =~= items.take(n - 1).push(items[n - 1]));
        vstd::seq_lib::to_multiset_build(items.take(n - 1), items[n - 1]);
    }
}

/// Arranging items by the sorted order of their keys moves them and neither
/// adds nor loses one.
pub proof fn lemma_arranged_is_permutation<T>(items: Seq<T>, keys: Seq<Seq<char>>)
    requires
        items.len() == keys.len(),
    ensures
        arranged(items, sorted_order(keys)).to_multiset() == items.to_multiset(),
{
    lemma_arranged_first_is_permutation(items, keys, keys.len());
    assert(items.take(items.len() as int) =~= items);
}

} // verus!
