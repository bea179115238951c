//! A stable sort by keys that are computed once for every item.

use vstd::prelude::*;

verus! {

/// The keys as mathematical integers.
pub open spec fn key_values(keys: Seq<i32>) -> Seq<int> {
    keys.map_values(|key: i32| key as int)
}

/// The place of the first key that is not smaller than `key`, or the
/// number of keys if all are smaller.
pub open spec fn insert_position(keys: Seq<int>, key: int) -> int
    decreases keys.len(),
{
    if keys.len() == 0 || keys[0] >= key {
        0
    } else {
        1 + insert_position(keys.drop_first(), key)
    }
}

/// The keys in ascending order.
pub open spec fn sorted_keys(keys: Seq<int>) -> Seq<int>
    decreases keys.len(),
{
    if keys.len() == 0 {
        Seq::empty()
    } else {
        let rest = sorted_keys(keys.drop_first());
        rest.insert(insert_position(rest, keys[0]), keys[0])
    }
}

/// The items in ascending order of their keys, where `keys[i]` is the key
/// of `items[i]`. Items with equal keys keep their order: the first item
/// goes in front of all later items whose key is not smaller.
pub open spec fn stable_sort<T>(items: Seq<T>, keys: Seq<int>) -> Seq<T>
    decreases items.len(),
{
    if items.len() == 0 {
        Seq::empty()
    } else {
        let rest = stable_sort(items.drop_first(), keys.drop_first());
        rest.insert(insert_position(sorted_keys(keys.drop_first()), keys[0]), items[0])
    }
}

/// The items in ascending order of what `key` gives for them.
pub open spec fn stable_sort_by<T>(items: Seq<T>, key: spec_fn(T) -> int) -> Seq<T> {
    stable_sort(items, items.map_values(key))
}

pub proof fn lemma_insert_position(keys: Seq<int>, key: int)
    ensures
        0 <= insert_position(keys, key) <= keys.len(),
        forall|i: int| 0 <= i < insert_position(keys, key) ==> keys[i] < key,
        insert_position(keys, key) < keys.len() ==> keys[insert_position(keys, key)] >= key,
    decreases keys.len(),
{
    if keys.len() > 0 && keys[0] < key {
        let rest = keys.drop_first();
        lemma_insert_position(rest, key);
        assert forall|i: int| 0 <= i < insert_position(keys, key) implies keys[i] < key by {
            if i > 0 {
                assert(keys[i] == rest[i - 1]);
            }
        }
        if insert_position(keys, key) < keys.len() {
            assert(keys[insert_position(keys, key)] == rest[insert_position(rest, key)]);
        }
    }
}

/// Sorting keeps the number of items, and the sorted keys ascend.
pub proof fn lemma_sorted(keys: Seq<int>)
    ensures
        sorted_keys(keys).len() == keys.len(),
        forall|i: int, j: int|
            0 <= i <= j < keys.len() ==> sorted_keys(keys)[i] <= sorted_keys(keys)[j],
    decreases keys.len(),
{
    if keys.len() > 0 {
        let rest = sorted_keys(keys.drop_first());
        lemma_sorted(keys.drop_first());
        lemma_insert_position(rest, keys[0]);
    }
}

pub proof fn lemma_stable_sort_len<T>(items: Seq<T>, keys: Seq<int>)
    requires
        items.len() == keys.len(),
    ensures
        stable_sort(items, keys).len() == items.len(),
    decreases items.len(),
{
    if items.len() > 0 {
        lemma_stable_sort_len(items.drop_first(), keys.drop_first());
        lemma_sorted(keys.drop_first());
        lemma_insert_position(sorted_keys(keys.drop_first()), keys[0]);
    }
}

/// Every sorted item is one of the items.
pub proof fn lemma_stable_sort_item<T>(items: Seq<T>, keys: Seq<int>, i: int) -> (j: int)
    requires
        items.len() == keys.len(),
        0 <= i < items.len(),
    ensures
        0 <= j < items.len(),
        stable_sort(items, keys)[i] == items[j],
    decreases items.len(),
{
    let rest_items = items.drop_first();
    let rest_keys = keys.drop_first();
    let position = insert_position(sorted_keys(rest_keys), keys[0]);
    lemma_stable_sort_len(rest_items, rest_keys);
    lemma_sorted(rest_keys);
    lemma_insert_position(sorted_keys(rest_keys), keys[0]);
    if i == position {
        0
    } else if i < position {
        1 + lemma_stable_sort_item(rest_items, rest_keys, i)
    } else {
        1 + lemma_stable_sort_item(rest_items, rest_keys, i - 1)
    }
}

/// Sorting the items and then applying a function to each gives the same
/// as applying the function first.
pub proof fn lemma_stable_sort_map<T, U>(items: Seq<T>, keys: Seq<int>, f: spec_fn(T) -> U)
    requires
        items.len() == keys.len(),
    ensures
        stable_sort(items, keys).map_values(f) == stable_sort(items.map_values(f), keys),
    decreases items.len(),
{
    if items.len() == 0 {
        assert(stable_sort(items, keys).map_values(f) =~= stable_sort(items.map_values(f), keys));
    } else {
        let rest_items = items.drop_first();
        let rest_keys = keys.drop_first();
        let position = insert_position(sorted_keys(rest_keys), keys[0]);
        lemma_stable_sort_map(rest_items, rest_keys, f);
        lemma_stable_sort_len(rest_items, rest_keys);
        lemma_sorted(rest_keys);
        lemma_insert_position(sorted_keys(rest_keys), keys[0]);
        assert(items.map_values(f).drop_first() =~= rest_items.map_values(f));
        assert(stable_sort(rest_items, rest_keys).insert(position, items[0]).map_values(f)
            =~= stable_sort(rest_items, rest_keys).map_values(f).insert(position, f(items[0])));
    }
}

/// Every item is one of the sorted items.
pub proof fn lemma_stable_sort_keeps<T>(items: Seq<T>, keys: Seq<int>, j: int) -> (i: int)
    requires
        items.len() == keys.len(),
        0 <= j < items.len(),
    ensures
        0 <= i < items.len(),
        stable_sort(items, keys)[i] == items[j],
    decreases items.len(),
{
    let rest_items = items.drop_first();
    let rest_keys = keys.drop_first();
    let position = insert_position(sorted_keys(rest_keys), keys[0]);
    lemma_stable_sort_len(rest_items, rest_keys);
    lemma_sorted(rest_keys);
    lemma_insert_position(sorted_keys(rest_keys), keys[0]);
    if j == 0 {
        position
    } else {
        let i = lemma_stable_sort_keeps(rest_items, rest_keys, j - 1);
        if i < position {
            i
        } else {
            i + 1
        }
    }
}

/// The places of the items in the sorted order: the `i`-th sorted item is
/// the item at `sort_order(keys)[i]`.
pub open spec fn sort_order(keys: Seq<int>) -> Seq<int> {
    stable_sort(Seq::new(keys.len(), |i: int| i), keys)
}

/// The keys sorted along with themselves are the sorted keys.
pub proof fn lemma_stable_sort_keys(keys: Seq<int>)
    ensures
        stable_sort(keys, keys) == sorted_keys(keys),
    decreases keys.len(),
{
    if keys.len() > 0 {
        lemma_stable_sort_keys(keys.drop_first());
    }
}

/// Sorted pairs of a key and a rising number ascend by the key, and by
/// the number where the keys are equal.
proof fn lemma_stable_sort_pairs(pairs: Seq<(int, int)>, keys: Seq<int>, a: int, b: int)
    requires
        pairs.len() == keys.len(),
        forall|i: int| 0 <= i < pairs.len() ==> (#[trigger] pairs[i]).0 == keys[i],
        forall|i: int, j: int|
            0 <= i < j < pairs.len() ==> (#[trigger] pairs[i]).1 < (#[trigger] pairs[j]).1,
        0 <= a < b < pairs.len(),
    ensures
        ({
            let sorted = stable_sort(pairs, keys);
            sorted[a].0 < sorted[b].0 || (sorted[a].0 == sorted[b].0 && sorted[a].1 < sorted[b].1)
        }),
    decreases pairs.len(),
{
    let rest_pairs = pairs.drop_first();
    let rest_keys = keys.drop_first();
    let rest = stable_sort(rest_pairs, rest_keys);
    let position = insert_position(sorted_keys(rest_keys), keys[0]);
    let key_of = |pair: (int, int)| pair.0;
    lemma_stable_sort_len(rest_pairs, rest_keys);
    lemma_sorted(rest_keys);
    lemma_insert_position(sorted_keys(rest_keys), keys[0]);
    lemma_stable_sort_map(rest_pairs, rest_keys, key_of);
    assert(rest_pairs.map_values(key_of) =~= rest_keys);
    lemma_stable_sort_keys(rest_keys);
    assert forall|i: int| 0 <= i < rest.len() implies (#[trigger] rest[i]).0 == sorted_keys(
        rest_keys,
    )[i] by {
        assert(rest.map_values(key_of)[i] == rest[i].0);
    }
    if a == position {
        let from = lemma_stable_sort_item(rest_pairs, rest_keys, b - 1);
        assert(rest[b - 1] == pairs[from + 1]);
    } else if b == position {
        assert(rest[a].0 == sorted_keys(rest_keys)[a]);
    } else {
        let before = if a < position {
            a
        } else {
            a - 1
        };
        let behind = if b < position {
            b
        } else {
            b - 1
        };
        lemma_stable_sort_pairs(rest_pairs, rest_keys, before, behind);
    }
}

/// The sort is a stable sort: the sorted items are the items in the order
/// of `sort_order`, in which every place of an item occurs, the keys
/// ascend, and of two items with equal keys the one that came first stays
/// first.
pub proof fn lemma_stable_sort_is_stable<T>(items: Seq<T>, keys: Seq<int>)
    requires
        items.len() == keys.len(),
    ensures
        stable_sort(items, keys).len() == items.len(),
        sort_order(keys).len() == items.len(),
        forall|i: int|
            0 <= i < items.len() ==> 0 <= #[trigger] sort_order(keys)[i] < items.len()
                && stable_sort(items, keys)[i] == items[sort_order(keys)[i]],
        forall|j: int| 0 <= j < items.len() ==> #[trigger] sort_order(keys).contains(j),
        forall|a: int, b: int|
            0 <= a < b < items.len() ==> keys[#[trigger] sort_order(keys)[a]]
                < keys[#[trigger] sort_order(keys)[b]] || (keys[sort_order(keys)[a]]
                == keys[sort_order(keys)[b]] && sort_order(keys)[a] < sort_order(keys)[b]),
{
    let places = Seq::new(keys.len(), |i: int| i);
    let order = sort_order(keys);
    let pairs = Seq::new(keys.len(), |i: int| (keys[i], i));
    let place_of = |pair: (int, int)| pair.1;
    let item_at = |place: int| items[place];
    lemma_stable_sort_len(items, keys);
    lemma_stable_sort_len(places, keys);
    lemma_stable_sort_len(pairs, keys);
    lemma_stable_sort_map(places, keys, item_at);
    assert(places.map_values(item_at) =~= items);
    lemma_stable_sort_map(pairs, keys, place_of);
    assert(pairs.map_values(place_of) =~= places);
    assert forall|i: int| 0 <= i < items.len() implies 0 <= #[trigger] order[i] < items.len()
        && stable_sort(items, keys)[i] == items[order[i]] && stable_sort(pairs, keys)[i] == (
        keys[order[i]],
        order[i],
    ) by {
        let from = lemma_stable_sort_item(places, keys, i);
        assert(order.map_values(item_at)[i] == items[order[i]]);
        let pair_from = lemma_stable_sort_item(pairs, keys, i);
        assert(stable_sort(pairs, keys).map_values(place_of)[i] == stable_sort(pairs, keys)[i].1);
    }
    assert forall|j: int| 0 <= j < items.len() implies #[trigger] order.contains(j) by {
        let i = lemma_stable_sort_keeps(places, keys, j);
        assert(order[i] == j);
    }
    assert forall|a: int, b: int| 0 <= a < b < items.len() implies keys[#[trigger] order[a]]
        < keys[#[trigger] order[b]] || (keys[order[a]] == keys[order[b]] && order[a]
        < order[b]) by {
        lemma_stable_sort_pairs(pairs, keys, a, b);
    }
}

/// The largest of the values; `values[0]` stands for an empty sequence too.
pub open spec fn seq_max(values: Seq<int>) -> int
    decreases values.len(),
{
    if values.len() <= 1 {
        values[0]
    } else if seq_max(values.drop_last()) >= values.last() {
        seq_max(values.drop_last())
    } else {
        values.last()
    }
}

/// The largest value is the larger of the first and the largest of the rest.
pub proof fn lemma_seq_max_first(values: Seq<int>)
    requires
        values.len() >= 2,
    ensures
        seq_max(values) == if values[0] >= seq_max(values.drop_first()) {
            values[0]
        } else {
            seq_max(values.drop_first())
        },
    decreases values.len(),
{
    reveal_with_fuel(seq_max, 3);
    if values.len() == 2 {
        assert(values.drop_last().len() == 1);
        assert(values.drop_first().len() == 1);
        assert(values.drop_last()[0] == values[0]);
        assert(values.drop_first()[0] == values[1]);
    } else {
        lemma_seq_max_first(values.drop_last());
        assert(values.drop_last().drop_first() =~= values.drop_first().drop_last());
        assert(values.drop_first().last() == values.last());
        assert(values.drop_last()[0] == values[0]);
    }
}

/// A value put into a sequence of values raises their maximum to itself,
/// or leaves it.
pub proof fn lemma_seq_max_insert(values: Seq<int>, position: int, value: int)
    requires
        values.len() >= 1,
        0 <= position <= values.len(),
    ensures
        seq_max(values.insert(position, value)) == if seq_max(values) >= value {
            seq_max(values)
        } else {
            value
        },
    decreases values.len(),
{
    reveal_with_fuel(seq_max, 3);
    let longer = values.insert(position, value);
    if position == values.len() {
        assert(longer.drop_last() =~= values);
    } else if values.len() == 1 {
        assert(longer.drop_last() =~= seq![value]);
        assert(longer.last() == values[0]);
    } else {
        lemma_seq_max_insert(values.drop_last(), position, value);
        assert(longer.drop_last() =~= values.drop_last().insert(position, value));
        assert(longer.last() == values.last());
    }
}

/// Sorting does not change the largest of the items.
pub proof fn lemma_stable_sort_max(values: Seq<int>, keys: Seq<int>)
    requires
        values.len() == keys.len(),
        values.len() >= 1,
    ensures
        seq_max(stable_sort(values, keys)) == seq_max(values),
    decreases values.len(),
{
    let rest = stable_sort(values.drop_first(), keys.drop_first());
    let position = insert_position(sorted_keys(keys.drop_first()), keys[0]);
    lemma_stable_sort_len(values.drop_first(), keys.drop_first());
    lemma_sorted(keys.drop_first());
    lemma_insert_position(sorted_keys(keys.drop_first()), keys[0]);
    if values.len() == 1 {
        assert(rest.insert(position, values[0]) =~= seq![values[0]]);
        assert(values =~= seq![values[0]]);
    } else {
        lemma_stable_sort_max(values.drop_first(), keys.drop_first());
        lemma_seq_max_insert(rest, position, values[0]);
        lemma_seq_max_first(values);
    }
}

/// Sorts the items by the keys that `f` gives for them. `f` is called once
/// for every item, in the order of the items. The sort is stable.
pub fn sort_iter_by_cached_key<T, F: Fn(&T) -> i32>(items: Vec<T>, f: F) -> (sorted: Vec<T>)
    requires
        forall|i: int| 0 <= i < items.len() ==> call_requires(f, (&#[trigger] items[i],)),
    ensures
        exists|keys: Seq<i32>|
            {
                &&& keys.len() == items.len()
                &&& forall|i: int|
                    0 <= i < items.len() ==> call_ensures(f, (&items[i],), #[trigger] keys[i])
                &&& sorted@ == stable_sort(items@, key_values(keys))
            },
{
    let ghost given = items@;
    let count = items.len();
    let mut keys: Vec<i32> = Vec::with_capacity(count);
    let mut i: usize = 0;
    while i < count
        invariant
            i <= count,
            count == items.len(),
            keys.len() == i,
            forall|j: int| 0 <= j < items.len() ==> call_requires(f, (&#[trigger] items[j],)),
            forall|j: int| 0 <= j < i ==> call_ensures(f, (&items[j],), #[trigger] keys[j]),
        decreases count - i,
    {
        let key = f(&items[i]);
        keys.push(key);
        i += 1;
    }
    let ghost all_keys = key_values(keys@);
    let mut items = items;
    let mut sorted: Vec<T> = Vec::with_capacity(count);
    let mut sorted_key_list: Vec<i32> = Vec::with_capacity(count);
    assert(given.subrange(count as int, count as int) =~= Seq::<T>::empty());
    assert(all_keys.subrange(count as int, count as int) =~= Seq::<int>::empty());
    assert(key_values(sorted_key_list@) =~= Seq::<int>::empty());
    while i > 0
        invariant
            i <= count,
            count == given.len(),
            keys.len() == count,
            all_keys == key_values(keys@),
            items@ == given.take(i as int),
            sorted@ == stable_sort(
                given.subrange(i as int, count as int),
                all_keys.subrange(i as int, count as int),
            ),
            key_values(sorted_key_list@) == sorted_keys(all_keys.subrange(i as int, count as int)),
            sorted.len() == count - i,
            sorted_key_list.len() == count - i,
        decreases i,
    {
        i -= 1;
        let item = items.pop().unwrap();
        let key = keys[i];
        let ghost rest_keys = key_values(sorted_key_list@);
        /* The item goes in front of the first one whose key is not smaller. */
        let mut position: usize = 0;
        assert(rest_keys.subrange(0, rest_keys.len() as int) =~= rest_keys);
        while position < sorted_key_list.len() && sorted_key_list[position] < key
            invariant
                position <= sorted_key_list.len(),
                rest_keys == key_values(sorted_key_list@),
                insert_position(rest_keys, key as int) == position + insert_position(
                    rest_keys.subrange(position as int, rest_keys.len() as int),
                    key as int,
                ),
            decreases sorted_key_list.len() - position,
        {
            assert(rest_keys.subrange(position as int, rest_keys.len() as int).drop_first()
                =~= rest_keys.subrange(position + 1, rest_keys.len() as int));
            position += 1;
        }
        proof {
            let tail = rest_keys.subrange(position as int, rest_keys.len() as int);
            assert(tail.len() == 0 || tail[0] >= key);
            assert(insert_position(rest_keys, key as int) == position);
            let items_here = given.subrange(i as int, count as int);
            let keys_here = all_keys.subrange(i as int, count as int);
            assert(items_here.drop_first() =~= given.subrange(i + 1, count as int));
            assert(keys_here.drop_first() =~= all_keys.subrange(i + 1, count as int));
            assert(items_here[0] == item);
            assert(keys_here[0] == key);
        }
        sorted.insert(position, item);
        sorted_key_list.insert(position, key);
        assert(key_values(sorted_key_list@) =~= rest_keys.insert(position as int, key as int));
        assert(items@ =~= given.take(i as int));
    }
    assert(given.subrange(0, count as int) =~= given);
    assert(all_keys.subrange(0, count as int) =~= all_keys);
    sorted
}

} // verus!
