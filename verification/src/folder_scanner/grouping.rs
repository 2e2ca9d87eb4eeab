//! What it means to split a sequence of items into groups by a key, and to
//! keep the groups in which a duplicate can be found. Both stages of a scan
//! are instances: candidate groups by size, duplicate groups by digest.

use vstd::prelude::*;

verus! {

/// The test for an item whose key is `wanted`.
pub open spec fn has_key<T, K>(key: spec_fn(T) -> K, wanted: K) -> spec_fn(T) -> bool {
    |item: T| key(item) == wanted
}

/// The items whose key is `wanted`, in the order in which they stand in
/// `items`.
pub open spec fn members_with<T, K>(items: Seq<T>, key: spec_fn(T) -> K, wanted: K) -> Seq<T> {
    items.filter(has_key(key, wanted))
}

/// `groups` splits `items` by `key`: each group holds all the items of one
/// key, in their order in `items`; no two groups have the same key; and no
/// item is left out. The order of the groups is free.
pub open spec fn is_grouping<T, K>(groups: Seq<Seq<T>>, items: Seq<T>, key: spec_fn(T) -> K) -> bool {
    &&& forall|g: int|
        0 <= g < groups.len() ==> (#[trigger] groups[g]).len() > 0 && groups[g] == members_with(
            items,
            key,
            key(groups[g][0]),
        )
    &&& forall|g: int, h: int|
        0 <= g < h < groups.len() ==> key((#[trigger] groups[g])[0]) != key(
            (#[trigger] groups[h])[0],
        )
    &&& forall|i: int|
        0 <= i < items.len() ==> exists|g: int|
            0 <= g < groups.len() && key((#[trigger] groups[g])[0]) == key(#[trigger] items[i])
}

/// `groups` holds the duplicates among `items` by `key`: each group holds all
/// the items of one key, in their order in `items`, and there are at least two
/// of them; no two groups have the same key; and every item whose key another
/// item shares is in a group. The order of the groups is free.
pub open spec fn is_duplicate_grouping<T, K>(
    groups: Seq<Seq<T>>,
    items: Seq<T>,
    key: spec_fn(T) -> K,
) -> bool {
    &&& forall|g: int|
        0 <= g < groups.len() ==> (#[trigger] groups[g]).len() >= 2 && groups[g] == members_with(
            items,
            key,
            key(groups[g][0]),
        )
    &&& forall|g: int, h: int|
        0 <= g < h < groups.len() ==> key((#[trigger] groups[g])[0]) != key(
            (#[trigger] groups[h])[0],
        )
    &&& forall|i: int|
        0 <= i < items.len() && members_with(items, key, key(#[trigger] items[i])).len() >= 2
            ==> exists|g: int|
            0 <= g < groups.len() && key((#[trigger] groups[g])[0]) == key(items[i])
}

/// `kept` holds, in their order, the groups of `all` that have two members or
/// more; `origin[k]` is the place in `all` from which `kept[k]` was taken.
pub open spec fn keeps_larger_groups<T>(kept: Seq<Seq<T>>, all: Seq<Seq<T>>, origin: Seq<int>) -> bool {
    &&& origin.len() == kept.len()
    &&& forall|k: int|
        0 <= k < kept.len() ==> 0 <= #[trigger] origin[k] < all.len() && kept[k] == all[origin[k]]
            && kept[k].len() >= 2
    &&& forall|k: int, l: int| 0 <= k < l < kept.len() ==> #[trigger] origin[k] < #[trigger] origin[l]
    &&& forall|g: int|
        0 <= g < all.len() && (#[trigger] all[g]).len() >= 2 ==> exists|k: int|
            0 <= k < kept.len() && #[trigger] origin[k] == g
}

/// Dropping the groups of one member from a grouping leaves the duplicates.
pub proof fn lemma_larger_groups_are_duplicates<T, K>(
    kept: Seq<Seq<T>>,
    all: Seq<Seq<T>>,
    origin: Seq<int>,
    items: Seq<T>,
    key: spec_fn(T) -> K,
)
    requires
        is_grouping(all, items, key),
        keeps_larger_groups(kept, all, origin),
    ensures
        is_duplicate_grouping(kept, items, key),
{
    assert forall|g: int| 0 <= g < kept.len() implies (#[trigger] kept[g]).len() >= 2 && kept[g]
        == members_with(items, key, key(kept[g][0])) by {
        assert(kept[g] == all[origin[g]]);
    }
    assert forall|g: int, h: int| 0 <= g < h < kept.len() implies key((#[trigger] kept[g])[0])
        != key((#[trigger] kept[h])[0]) by {
        assert(origin[g] < origin[h]);
        assert(kept[g] == all[origin[g]]);
        assert(kept[h] == all[origin[h]]);
    }
    assert forall|i: int|
        0 <= i < items.len() && members_with(items, key, key(#[trigger] items[i])).len()
            >= 2 implies exists|g: int|
        0 <= g < kept.len() && key((#[trigger] kept[g])[0]) == key(items[i]) by {
        let a = choose|a: int|
            0 <= a < all.len() && key((#[trigger] all[a])[0]) == key(items[i]);
        assert(all[a] == members_with(items, key, key(items[i])));
        let k = choose|k: int| 0 <= k < kept.len() && #[trigger] origin[k] == a;
        assert(kept[k] == all[a]);
    }
}

/// All the members of a group of duplicates have one key.
pub proof fn lemma_members_share_key<T, K>(
    groups: Seq<Seq<T>>,
    items: Seq<T>,
    key: spec_fn(T) -> K,
    g: int,
    first: int,
    second: int,
)
    requires
        is_duplicate_grouping(groups, items, key),
        0 <= g < groups.len(),
        0 <= first < groups[g].len(),
        0 <= second < groups[g].len(),
    ensures
        key(groups[g][first]) == key(groups[g][second]),
{
    let wanted = key(groups[g][0]);
    let with_key = has_key(key, wanted);
    assert(groups[g] == items.filter(with_key));
    items.lemma_filter_pred(with_key, first);
    items.lemma_filter_pred(with_key, second);
}

/// Two items of one key are both in the group of that key, which so has two
/// members at least.
pub proof fn lemma_two_members<T, K>(items: Seq<T>, key: spec_fn(T) -> K, first: int, second: int)
    requires
        0 <= first < second < items.len(),
        key(items[first]) == key(items[second]),
    ensures
        members_with(items, key, key(items[first])).len() >= 2,
        members_with(items, key, key(items[first])).contains(items[first]),
        members_with(items, key, key(items[first])).contains(items[second]),
{
    let wanted = key(items[first]);
    let with_key = has_key(key, wanted);
    let head = items.take(second);
    let tail = items.skip(second);
    assert(items =~= head + tail);
    Seq::filter_distributes_over_add(head, tail, with_key);
    assert(head[first] == items[first]);
    assert(tail[0] == items[second]);
    head.lemma_filter_contains(with_key, first);
    tail.lemma_filter_contains(with_key, 0);
    items.lemma_filter_contains(with_key, first);
    items.lemma_filter_contains(with_key, second);
    assert(head.filter(with_key).len() >= 1);
    assert(tail.filter(with_key).len() >= 1);
}

} // verus!
