//! The order in which the members of a group are taken: ascending by a
//! weight, members of equal weight in the order in which they came. The first
//! member of the ordered group is the one that stays in place.

use vstd::prelude::*;

verus! {

/// `sorted` with `item` put behind the last member that is not heavier than
/// it.
pub open spec fn insert_by_weight<T>(sorted: Seq<T>, item: T, weight: spec_fn(T) -> nat) -> Seq<T>
    decreases sorted.len(),
{
    if sorted.len() == 0 || weight(sorted.last()) <= weight(item) {
        sorted.push(item)
    } else {
        insert_by_weight(sorted.drop_last(), item, weight).push(sorted.last())
    }
}

/// The members of `items` in ascending order of `weight`; members of equal
/// weight keep the order that they have in `items`.
pub open spec fn keep_order<T>(items: Seq<T>, weight: spec_fn(T) -> nat) -> Seq<T>
    decreases items.len(),
{
    if items.len() == 0 {
        Seq::empty()
    } else {
        insert_by_weight(keep_order(items.drop_last(), weight), items.last(), weight)
    }
}

/// No member stands before a lighter one.
pub open spec fn is_ascending<T>(items: Seq<T>, weight: spec_fn(T) -> nat) -> bool {
    forall|i: int, j: int|
        0 <= i < j < items.len() ==> weight(#[trigger] items[i]) <= weight(#[trigger] items[j])
}

/// The test for a member that weighs `wanted`.
pub open spec fn weighs<T>(weight: spec_fn(T) -> nat, wanted: nat) -> spec_fn(T) -> bool {
    |item: T| weight(item) == wanted
}

/// The members of `items` that weigh `wanted`, in their order.
pub open spec fn of_weight<T>(items: Seq<T>, weight: spec_fn(T) -> nat, wanted: nat) -> Seq<T> {
    items.filter(weighs(weight, wanted))
}

/// No two members of `items` weigh the same.
pub open spec fn has_distinct_weights<T>(items: Seq<T>, weight: spec_fn(T) -> nat) -> bool {
    forall|i: int, j: int|
        0 <= i < j < items.len() ==> weight(#[trigger] items[i]) != weight(#[trigger] items[j])
}

/// Where `item` goes in `sorted`: all the members from `place` on are heavier
/// than it, and the one before `place` is not.
pub open spec fn is_place_of<T>(sorted: Seq<T>, item: T, weight: spec_fn(T) -> nat, place: int) -> bool {
    &&& 0 <= place <= sorted.len()
    &&& forall|i: int| place <= i < sorted.len() ==> weight(#[trigger] sorted[i]) > weight(item)
    &&& place > 0 ==> weight(sorted[place - 1]) <= weight(item)
}

/// Putting an item in is an insertion at its place.
pub proof fn lemma_insert_at_place<T>(sorted: Seq<T>, item: T, weight: spec_fn(T) -> nat, place: int)
    requires
        is_place_of(sorted, item, weight, place),
    ensures
        insert_by_weight(sorted, item, weight) == sorted.insert(place, item),
    decreases sorted.len(),
{
    if sorted.len() == 0 || weight(sorted.last()) <= weight(item) {
        if place < sorted.len() {
            assert(weight(sorted[sorted.len() - 1]) > weight(item));
        }
        assert(sorted.insert(place, item) =~= sorted.push(item));
    } else {
        let shorter = sorted.drop_last();
        assert(place < sorted.len()) by {
            if place == sorted.len() {
                assert(weight(sorted[place - 1]) <= weight(item));
            }
        }
        assert forall|i: int| place <= i < shorter.len() implies weight(#[trigger] shorter[i])
            > weight(item) by {
            assert(shorter[i] == sorted[i]);
        }
        if place > 0 {
            assert(shorter[place - 1] == sorted[place - 1]);
        }
        lemma_insert_at_place(shorter, item, weight, place);
        assert(shorter.insert(place, item).push(sorted.last()) =~= sorted.insert(place, item));
    }
}

/// Putting an item in adds it and nothing else, and keeps an ascending
/// sequence ascending.
pub proof fn lemma_insert_by_weight<T>(sorted: Seq<T>, item: T, weight: spec_fn(T) -> nat)
    ensures
        insert_by_weight(sorted, item, weight).len() == sorted.len() + 1,
        insert_by_weight(sorted, item, weight).to_multiset() == sorted.to_multiset().insert(item),
        is_ascending(sorted, weight) ==> is_ascending(
            insert_by_weight(sorted, item, weight),
            weight,
        ),
        forall|wanted: nat| #[trigger]
            of_weight(insert_by_weight(sorted, item, weight), weight, wanted) == if weight(item)
                == wanted {
                of_weight(sorted, weight, wanted).push(item)
            } else {
                of_weight(sorted, weight, wanted)
            },
    decreases sorted.len(),
{
    broadcast use vstd::seq_lib::group_to_multiset_ensures;

    let result = insert_by_weight(sorted, item, weight);
    if sorted.len() == 0 || weight(sorted.last()) <= weight(item) {
        assert forall|wanted: nat| #[trigger]
            of_weight(result, weight, wanted) == if weight(item) == wanted {
                of_weight(sorted, weight, wanted).push(item)
            } else {
                of_weight(sorted, weight, wanted)
            } by {
            assert(result.drop_last() =~= sorted);
            reveal(Seq::filter);
        }
        if is_ascending(sorted, weight) {
            assert forall|i: int, j: int| 0 <= i < j < result.len() implies weight(
                #[trigger] result[i],
            ) <= weight(#[trigger] result[j]) by {
                if j < sorted.len() {
                    assert(weight(sorted[i]) <= weight(sorted[j]));
                } else if sorted.len() > 0 {
                    if i < sorted.len() - 1 {
                        assert(weight(sorted[i]) <= weight(sorted[sorted.len() - 1]));
                    }
                }
            }
        }
    } else {
        let shorter = sorted.drop_last();
        let last = sorted.last();
        let inner = insert_by_weight(shorter, item, weight);
        lemma_insert_by_weight(shorter, item, weight);
        assert(sorted =~= shorter.push(last));
        assert(result == inner.push(last));
        assert forall|wanted: nat| #[trigger]
            of_weight(result, weight, wanted) == if weight(item) == wanted {
                of_weight(sorted, weight, wanted).push(item)
            } else {
                of_weight(sorted, weight, wanted)
            } by {
            let has_weight = weighs(weight, wanted);
            assert(result.drop_last() =~= inner);
            assert(of_weight(inner, weight, wanted) == if weight(item) == wanted {
                of_weight(shorter, weight, wanted).push(item)
            } else {
                of_weight(shorter, weight, wanted)
            });
            assert(result.filter(has_weight) == if has_weight(last) {
                inner.filter(has_weight).push(last)
            } else {
                inner.filter(has_weight)
            }) by {
                reveal(Seq::filter);
            }
            assert(sorted.filter(has_weight) == if has_weight(last) {
                shorter.filter(has_weight).push(last)
            } else {
                shorter.filter(has_weight)
            }) by {
                reveal(Seq::filter);
            }
            assert(weight(last) > weight(item));
        }
        if is_ascending(sorted, weight) {
            assert(is_ascending(shorter, weight)) by {
                assert forall|i: int, j: int| 0 <= i < j < shorter.len() implies weight(
                    #[trigger] shorter[i],
                ) <= weight(#[trigger] shorter[j]) by {
                    assert(weight(sorted[i]) <= weight(sorted[j]));
                }
            }
            assert forall|i: int, j: int| 0 <= i < j < result.len() implies weight(
                #[trigger] result[i],
            ) <= weight(#[trigger] result[j]) by {
                if j < inner.len() {
                    assert(weight(inner[i]) <= weight(inner[j]));
                } else {
                    // every member of `inner` is the item or a member of `shorter`
                    assert(inner.to_multiset().contains(inner[i]));
                    if inner[i] != item {
                        assert(shorter.to_multiset().contains(inner[i]));
                        let k = choose|k: int| 0 <= k < shorter.len() && shorter[k] == inner[i];
                        assert(weight(sorted[k]) <= weight(sorted[sorted.len() - 1]));
                    }
                }
            }
        }
    }
}

/// What the ordering keeps and what it gives: the ordered group has the same
/// members as the group, it is ascending, and the members of one weight stand
/// in it as they stood in the group.
pub proof fn lemma_keep_order<T>(items: Seq<T>, weight: spec_fn(T) -> nat)
    ensures
        keep_order(items, weight).len() == items.len(),
        keep_order(items, weight).to_multiset() == items.to_multiset(),
        is_ascending(keep_order(items, weight), weight),
        forall|wanted: nat| #[trigger]
            of_weight(keep_order(items, weight), weight, wanted) == of_weight(items, weight, wanted),
    decreases items.len(),
{
    broadcast use vstd::seq_lib::group_to_multiset_ensures;

    if items.len() == 0 {
        assert(items =~= Seq::empty());
    } else {
        let shorter = items.drop_last();
        lemma_keep_order(shorter, weight);
        lemma_insert_by_weight(keep_order(shorter, weight), items.last(), weight);
        assert(items =~= shorter.push(items.last()));
        assert forall|wanted: nat| #[trigger]
            of_weight(keep_order(items, weight), weight, wanted) == of_weight(
                items,
                weight,
                wanted,
            ) by {
            let has_weight = weighs(weight, wanted);
            assert(items.filter(has_weight) == if has_weight(items.last()) {
                shorter.filter(has_weight).push(items.last())
            } else {
                shorter.filter(has_weight)
            }) by {
                reveal(Seq::filter);
            }
            assert(of_weight(shorter, weight, wanted) == of_weight(
                keep_order(shorter, weight),
                weight,
                wanted,
            ));
        }
    }
}

/// `ordered` is `items` in ascending order, the members of one weight in the
/// order that they have in `items`.
pub open spec fn is_stable_ascending_order<T>(
    ordered: Seq<T>,
    items: Seq<T>,
    weight: spec_fn(T) -> nat,
) -> bool {
    &&& is_ascending(ordered, weight)
    &&& forall|wanted: nat| #[trigger]
        of_weight(ordered, weight, wanted) == of_weight(items, weight, wanted)
}

/// The members of the weight of the last member end with the last member.
proof fn lemma_last_of_its_weight<T>(items: Seq<T>, weight: spec_fn(T) -> nat)
    requires
        items.len() > 0,
    ensures
        of_weight(items, weight, weight(items.last())) == of_weight(
            items.drop_last(),
            weight,
            weight(items.last()),
        ).push(items.last()),
        forall|wanted: nat|
            wanted != weight(items.last()) ==> #[trigger] of_weight(items, weight, wanted)
                == of_weight(items.drop_last(), weight, wanted),
{
    assert forall|wanted: nat| #[trigger]
        of_weight(items, weight, wanted) == if weight(items.last()) == wanted {
            of_weight(items.drop_last(), weight, wanted).push(items.last())
        } else {
            of_weight(items.drop_last(), weight, wanted)
        } by {
        reveal(Seq::filter);
    }
}

/// A member of some weight shows among the members of that weight.
proof fn lemma_shows_in_its_weight<T>(items: Seq<T>, weight: spec_fn(T) -> nat, i: int)
    requires
        0 <= i < items.len(),
    ensures
        of_weight(items, weight, weight(items[i])).len() > 0,
{
    let wanted = weight(items[i]);
    let has_weight = weighs(weight, wanted);
    assert(of_weight(items, weight, wanted) == items.filter(has_weight));
    items.lemma_filter_contains(has_weight, i);
}

/// Every member of the members of one weight has that weight and is a member.
proof fn lemma_of_weight_members<T>(items: Seq<T>, weight: spec_fn(T) -> nat, wanted: nat, k: int)
    requires
        0 <= k < of_weight(items, weight, wanted).len(),
    ensures
        weight(of_weight(items, weight, wanted)[k]) == wanted,
        items.contains(of_weight(items, weight, wanted)[k]),
{
    let has_weight = weighs(weight, wanted);
    assert(of_weight(items, weight, wanted) == items.filter(has_weight));
    items.lemma_filter_pred(has_weight, k);
    items.lemma_filter_contains_rev(has_weight, items.filter(has_weight)[k]);
}

/// There is one way only to order a group: two ascending sequences in which
/// the members of each weight are the same, in the same order, are the same
/// sequence.
pub proof fn lemma_order_is_unique<T>(first: Seq<T>, second: Seq<T>, weight: spec_fn(T) -> nat)
    requires
        is_ascending(first, weight),
        is_ascending(second, weight),
        forall|wanted: nat| #[trigger]
            of_weight(first, weight, wanted) == of_weight(second, weight, wanted),
    ensures
        first == second,
    decreases first.len(),
{
    if first.len() == 0 {
        if second.len() > 0 {
            lemma_shows_in_its_weight(second, weight, 0);
            assert(of_weight(first, weight, weight(second[0])) =~= Seq::empty()) by {
                reveal(Seq::filter);
            }
        }
        assert(first =~= second);
    } else {
        let heaviest = weight(first.last());
        lemma_last_of_its_weight(first, weight);
        assert(of_weight(second, weight, heaviest).len() > 0);
        if second.len() == 0 {
            assert(of_weight(second, weight, heaviest) =~= Seq::empty()) by {
                reveal(Seq::filter);
            }
        }
        let heaviest_second = weight(second.last());
        lemma_last_of_its_weight(second, weight);
        // the last member of either sequence is among the members of the other
        assert(heaviest_second <= heaviest) by {
            let shared = of_weight(first, weight, heaviest_second);
            assert(shared.len() > 0);
            lemma_of_weight_members(first, weight, heaviest_second, 0);
            let i = choose|i: int| 0 <= i < first.len() && first[i] == shared[0];
            if i < first.len() - 1 {
                assert(weight(first[i]) <= weight(first[first.len() - 1]));
            }
        }
        assert(heaviest <= heaviest_second) by {
            let shared = of_weight(second, weight, heaviest);
            lemma_of_weight_members(second, weight, heaviest, 0);
            let i = choose|i: int| 0 <= i < second.len() && second[i] == shared[0];
            if i < second.len() - 1 {
                assert(weight(second[i]) <= weight(second[second.len() - 1]));
            }
        }
        let shorter_first = first.drop_last();
        let shorter_second = second.drop_last();
        assert(first.last() == second.last()) by {
            let of_first = of_weight(shorter_first, weight, heaviest).push(first.last());
            let of_second = of_weight(shorter_second, weight, heaviest).push(second.last());
            assert(of_first == of_second);
            assert(of_first.last() == first.last());
            assert(of_second.last() == second.last());
        }
        assert forall|wanted: nat| #[trigger]
            of_weight(shorter_first, weight, wanted) == of_weight(
                shorter_second,
                weight,
                wanted,
            ) by {
            if wanted == heaviest {
                let of_first = of_weight(shorter_first, weight, heaviest);
                let of_second = of_weight(shorter_second, weight, heaviest);
                assert(of_first.push(first.last()) == of_second.push(second.last()));
                assert(of_first.push(first.last()).drop_last() =~= of_first);
                assert(of_second.push(second.last()).drop_last() =~= of_second);
            } else {
                assert(of_weight(first, weight, wanted) == of_weight(second, weight, wanted));
            }
        }
        assert(is_ascending(shorter_first, weight)) by {
            assert forall|i: int, j: int| 0 <= i < j < shorter_first.len() implies weight(
                #[trigger] shorter_first[i],
            ) <= weight(#[trigger] shorter_first[j]) by {
                assert(weight(first[i]) <= weight(first[j]));
            }
        }
        assert(is_ascending(shorter_second, weight)) by {
            assert forall|i: int, j: int| 0 <= i < j < shorter_second.len() implies weight(
                #[trigger] shorter_second[i],
            ) <= weight(#[trigger] shorter_second[j]) by {
                assert(weight(second[i]) <= weight(second[j]));
            }
        }
        lemma_order_is_unique(shorter_first, shorter_second, weight);
        assert(first =~= shorter_first.push(first.last()));
        assert(second =~= shorter_second.push(second.last()));
    }
}

/// `keep_order` is the ascending order in which members of equal weight keep
/// their places, and nothing else is.
pub proof fn lemma_keep_order_is_the_stable_order<T>(
    ordered: Seq<T>,
    items: Seq<T>,
    weight: spec_fn(T) -> nat,
)
    ensures
        is_stable_ascending_order(ordered, items, weight) <==> ordered == keep_order(items, weight),
{
    lemma_keep_order(items, weight);
    if is_stable_ascending_order(ordered, items, weight) {
        lemma_order_is_unique(ordered, keep_order(items, weight), weight);
    }
}

/// The member that stays in place is a member of the group, and none is
/// lighter.
pub proof fn lemma_kept_is_lightest<T>(items: Seq<T>, weight: spec_fn(T) -> nat)
    requires
        items.len() > 0,
    ensures
        items.contains(keep_order(items, weight)[0]),
        forall|i: int|
            0 <= i < items.len() ==> weight(keep_order(items, weight)[0]) <= weight(
                #[trigger] items[i],
            ),
{
    broadcast use vstd::seq_lib::group_to_multiset_ensures;

    let ordered = keep_order(items, weight);
    lemma_keep_order(items, weight);
    assert(ordered.to_multiset().contains(ordered[0]));
    assert(items.to_multiset().contains(ordered[0]));
    assert forall|i: int| 0 <= i < items.len() implies weight(ordered[0]) <= weight(
        #[trigger] items[i],
    ) by {
        assert(items.to_multiset().contains(items[i]));
        assert(ordered.to_multiset().contains(items[i]));
        let j = choose|j: int| 0 <= j < ordered.len() && ordered[j] == items[i];
        if j > 0 {
            assert(weight(ordered[0]) <= weight(ordered[j]));
        }
    }
}

/// Where no two members weigh the same, the member that stays in place is
/// the lightest one, in whatever order the members came.
pub proof fn lemma_kept_is_determined<T>(items: Seq<T>, other: Seq<T>, weight: spec_fn(T) -> nat)
    requires
        items.len() > 0,
        has_distinct_weights(items, weight),
        other.to_multiset() == items.to_multiset(),
    ensures
        other.len() > 0,
        keep_order(other, weight)[0] == keep_order(items, weight)[0],
{
    broadcast use vstd::seq_lib::group_to_multiset_ensures;

    other.to_multiset_ensures();
    items.to_multiset_ensures();
    assert(other.len() == items.len());
    lemma_kept_is_lightest(items, weight);
    lemma_kept_is_lightest(other, weight);
    let kept = keep_order(items, weight)[0];
    let kept_other = keep_order(other, weight)[0];
    assert(items.to_multiset().contains(kept));
    assert(other.to_multiset().contains(kept_other));
    assert(items.to_multiset().contains(kept_other));
    assert(other.to_multiset().contains(kept));
    let a = choose|a: int| 0 <= a < items.len() && items[a] == kept;
    let b = choose|b: int| 0 <= b < items.len() && items[b] == kept_other;
    let c = choose|c: int| 0 <= c < other.len() && other[c] == kept;
    assert(weight(kept) <= weight(items[b]));
    assert(weight(kept_other) <= weight(other[c]));
    if a < b {
        assert(weight(items[a]) != weight(items[b]));
    } else if b < a {
        assert(weight(items[b]) != weight(items[a]));
    }
}

} // verus!
