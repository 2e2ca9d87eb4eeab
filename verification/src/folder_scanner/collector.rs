//! The size stage: records are put into buckets by their exact size, and the
//! buckets of two records or more are the candidate groups. Files of
//! different sizes are never compared, and a file whose size no other file
//! has is never read.

use std::collections::HashMap;
use vstd::prelude::*;
use vstd::std_specs::hash::*;
use vstd::std_specs::iter::IteratorSpec;
use super::file_info::{FileInfo, FileRecord};
use super::grouping::{has_key, is_duplicate_grouping, lemma_members_share_key, members_with};

verus! {

broadcast use vstd::std_specs::hash::group_hash_axioms;

/// The candidate groups of a run: every group holds two records or more, all
/// of one size.
pub struct CollectorResult {
    pub buckets: Vec<Vec<FileInfo>>,
}

/// The key by which records are put into buckets: their size.
pub open spec fn size_key() -> spec_fn(FileRecord) -> nat {
    |record: FileRecord| record.size
}

/// What a map of buckets holds: for each size in it, the records of its
/// bucket in their order.
pub open spec fn bucket_records(buckets: Map<u64, Vec<FileInfo>>) -> Map<nat, Seq<FileRecord>> {
    Map::new(
        |size: nat| size <= u64::MAX && buckets.contains_key(size as u64),
        |size: nat| buckets[size as u64].deep_view(),
    )
}

/// The bucket of `size` in `buckets`, empty where there is none.
pub open spec fn bucket_of(buckets: Map<nat, Seq<FileRecord>>, size: nat) -> Seq<FileRecord> {
    if buckets.contains_key(size) {
        buckets[size]
    } else {
        Seq::empty()
    }
}

/// The buckets that `records` fall into: one for each size that occurs, with
/// the records of that size in their order.
pub open spec fn buckets_of(records: Seq<FileRecord>) -> Map<nat, Seq<FileRecord>> {
    Map::new(
        |size: nat| exists|i: int| 0 <= i < records.len() && (#[trigger] records[i]).size == size,
        |size: nat| members_with(records, size_key(), size),
    )
}

/// Puts a record at the end of the bucket of its size, which is made if it is
/// not there yet. No other bucket changes.
pub fn bucket_file_by_size(buckets: &mut HashMap<u64, Vec<FileInfo>>, file_info: FileInfo)
    ensures
        bucket_records(final(buckets)@) == bucket_records(old(buckets)@).insert(
            file_info@.size,
            bucket_of(bucket_records(old(buckets)@), file_info@.size).push(file_info@),
        ),
{
    let ghost before = buckets@;
    let ghost record = file_info@;
    let bucket_key = file_info.size;
    match buckets.remove(&bucket_key) {
        Some(mut bucket) => {
            let ghost held = bucket.deep_view();
            bucket.push(file_info);
            assert(bucket.deep_view() =~= held.push(record));
            buckets.insert(bucket_key, bucket);
        },
        None => {
            let mut bucket = Vec::new();
            bucket.push(file_info);
            assert(bucket.deep_view() =~= Seq::<FileRecord>::empty().push(record));
            buckets.insert(bucket_key, bucket);
        },
    }
    assert(bucket_records(buckets@) =~= bucket_records(before).insert(
        record.size,
        bucket_of(bucket_records(before), record.size).push(record),
    ));
}

/// `groups` holds the buckets of two records or more, each once: `sizes[g]`
/// is the size whose bucket `groups[g]` is. The order of the groups is free.
pub open spec fn holds_larger_buckets(
    groups: Seq<Seq<FileRecord>>,
    buckets: Map<nat, Seq<FileRecord>>,
    sizes: Seq<nat>,
) -> bool {
    &&& sizes.len() == groups.len()
    &&& sizes.no_duplicates()
    &&& forall|g: int|
        0 <= g < groups.len() ==> buckets.contains_key(#[trigger] sizes[g]) && groups[g]
            == buckets[sizes[g]] && groups[g].len() >= 2
    &&& forall|size: nat|
        buckets.contains_key(size) && (#[trigger] buckets[size]).len() >= 2 ==> sizes.contains(size)
}

/// The sizes that a map of buckets holds, each once, in the order in which the
/// map hands them out.
fn bucket_sizes(buckets: &HashMap<u64, Vec<FileInfo>>) -> (sizes: Vec<u64>)
    ensures
        sizes@.no_duplicates(),
        sizes@.to_set() == buckets@.dom(),
{
    let mut sizes: Vec<u64> = Vec::new();
    let keys = buckets.keys();
    let ghost all = keys.remaining();
    assert(all.unref().to_set() == buckets@.dom());
    assert(all.no_duplicates());
    for size in it: keys
        invariant
            it.seq() == all,
            sizes@ =~= all.unref().take(it.index()),
    {
        sizes.push(*size);
    }
    assert(all.unref().take(all.len() as int) =~= all.unref());
    assert(all.unref().no_duplicates()) by {
        assert forall|i: int, j: int|
            0 <= i < all.len() && 0 <= j < all.len() && i != j implies all.unref()[i]
            != all.unref()[j] by {
            assert(all[i] != all[j]);
        }
    }
    sizes
}

/// Hands out the buckets in which a duplicate can be: those of two records or
/// more. A bucket of one record is dropped.
pub fn filter_potential_duplicates(buckets: HashMap<u64, Vec<FileInfo>>) -> (groups: Vec<
    Vec<FileInfo>,
>)
    ensures
        exists|sizes: Seq<nat>|
            holds_larger_buckets(groups.deep_view(), bucket_records(buckets@), sizes),
{
    let ghost given = buckets@;
    let ghost model = bucket_records(buckets@);
    let sizes = bucket_sizes(&buckets);
    let mut buckets = buckets;
    let mut groups: Vec<Vec<FileInfo>> = Vec::new();
    let ghost mut picked: Seq<nat> = Seq::empty();
    let mut index: usize = 0;
    while index < sizes.len()
        invariant
            index <= sizes.len(),
            model == bucket_records(given),
            sizes@.no_duplicates(),
            sizes@.to_set() == given.dom(),
            forall|j: int|
                index <= j < sizes.len() ==> buckets@.contains_key(#[trigger] sizes@[j])
                    && buckets@[sizes@[j]] == given[sizes@[j]],
            picked.len() == groups.len(),
            forall|g: int|
                0 <= g < picked.len() ==> model.contains_key(#[trigger] picked[g])
                    && groups.deep_view()[g] == model[picked[g]] && model[picked[g]].len() >= 2,
            forall|g: int|
                0 <= g < picked.len() ==> exists|j: int|
                    0 <= j < index && #[trigger] sizes@[j] == #[trigger] picked[g],
            picked.no_duplicates(),
            forall|j: int|
                0 <= j < index && model[#[trigger] sizes@[j] as nat].len() >= 2 ==> picked.contains(
                    sizes@[j] as nat,
                ),
        decreases sizes.len() - index,
    {
        let size = sizes[index];
        let ghost before = buckets@;
        let ghost held = groups.deep_view();
        let ghost picked_before = picked;
        assert(sizes@.to_set().contains(size));
        let taken = buckets.remove(&size);
        assert(taken is Some);
        assert(forall|j: int|
            index < j < sizes.len() ==> sizes@[j] != size && buckets@.contains_key(
                #[trigger] sizes@[j],
            ) && buckets@[sizes@[j]] == given[sizes@[j]]);
        match taken {
            Some(bucket) => {
                assert(bucket == given[size]);
                assert(bucket.deep_view() == model[size as nat]);
                if bucket.len() > 1 {
                    groups.push(bucket);
                    proof {
                        picked = picked.push(size as nat);
                        assert(groups.deep_view() =~= held.push(model[size as nat]));
                        assert forall|i: int, j: int|
                            0 <= i < picked.len() && 0 <= j < picked.len() && i != j implies picked[i]
                            != picked[j] by {
                            if i < picked_before.len() && j < picked_before.len() {
                                assert(picked_before[i] != picked_before[j]);
                            } else if i < picked_before.len() {
                                let k = choose|k: int|
                                    0 <= k < index && #[trigger] sizes@[k] == picked_before[i];
                                assert(sizes@[k] != sizes@[index as int]);
                            } else {
                                let k = choose|k: int|
                                    0 <= k < index && #[trigger] sizes@[k] == picked_before[j];
                                assert(sizes@[k] != sizes@[index as int]);
                            }
                        }
                        assert(picked[picked.len() - 1] == size as nat);
                    }
                }
            },
            None => {},
        }
        proof {
            assert forall|g: int| 0 <= g < picked.len() implies exists|j: int|
                0 <= j < index + 1 && #[trigger] sizes@[j] == #[trigger] picked[g] by {
                if g < picked_before.len() {
                    let k = choose|k: int|
                        0 <= k < index && #[trigger] sizes@[k] == picked_before[g];
                    assert(sizes@[k] == picked[g]);
                } else {
                    assert(sizes@[index as int] == picked[g]);
                }
            }
            assert forall|j: int|
                0 <= j < index + 1 && model[#[trigger] sizes@[j] as nat].len()
                    >= 2 implies picked.contains(sizes@[j] as nat) by {
                if j < index {
                    assert(picked_before.contains(sizes@[j] as nat));
                    let g = choose|g: int|
                        0 <= g < picked_before.len() && picked_before[g] == sizes@[j] as nat;
                    assert(picked[g] == sizes@[j] as nat);
                } else {
                    assert(picked[picked.len() - 1] == size as nat);
                }
            }
        }
        index += 1;
    }
    proof {
        assert forall|size: nat|
            model.contains_key(size) && (#[trigger] model[size]).len() >= 2 implies picked.contains(
            size,
        ) by {
            assert(sizes@.to_set().contains(size as u64));
            let j = choose|j: int| 0 <= j < sizes@.len() && sizes@[j] == size as u64;
            assert(model[sizes@[j] as nat].len() >= 2);
        }
        assert(holds_larger_buckets(groups.deep_view(), model, picked));
    }
    groups
}

/// One more record goes to the end of the bucket of its size.
pub proof fn lemma_buckets_of_push(records: Seq<FileRecord>, record: FileRecord)
    ensures
        buckets_of(records.push(record)) == buckets_of(records).insert(
            record.size,
            bucket_of(buckets_of(records), record.size).push(record),
        ),
{
    let longer = records.push(record);
    let expected = buckets_of(records).insert(
        record.size,
        bucket_of(buckets_of(records), record.size).push(record),
    );
    assert(longer.drop_last() =~= records);
    assert forall|size: nat| buckets_of(longer).contains_key(size) <==> expected.contains_key(
        size,
    ) by {
        if buckets_of(longer).contains_key(size) {
            let i = choose|i: int| 0 <= i < longer.len() && (#[trigger] longer[i]).size == size;
            if i < records.len() {
                assert(records[i].size == size);
            }
        }
        if expected.contains_key(size) {
            if size == record.size {
                assert(longer[longer.len() - 1].size == size);
            } else {
                let i = choose|i: int|
                    0 <= i < records.len() && (#[trigger] records[i]).size == size;
                assert(longer[i].size == size);
            }
        }
    }
    assert forall|size: nat| buckets_of(longer).contains_key(size) implies buckets_of(longer)[size]
        == expected[size] by {
        let of_size = has_key(size_key(), size);
        assert(longer.filter(of_size) == if of_size(record) {
            records.filter(of_size).push(record)
        } else {
            records.filter(of_size)
        }) by {
            reveal(Seq::filter);
        }
        if size == record.size && !buckets_of(records).contains_key(size) {
            if records.filter(of_size).len() > 0 {
                records.lemma_filter_pred(of_size, 0);
                records.lemma_filter_contains_rev(of_size, records.filter(of_size)[0]);
                let j = choose|j: int|
                    0 <= j < records.len() && records[j] == records.filter(of_size)[0];
                assert(records[j].size == size);
            }
            assert(records.filter(of_size) =~= Seq::empty());
        }
    }
    assert(buckets_of(longer) =~= expected);
}

/// The larger buckets of a sequence of records are its candidate groups.
pub proof fn lemma_larger_buckets_are_candidates(
    groups: Seq<Seq<FileRecord>>,
    records: Seq<FileRecord>,
    sizes: Seq<nat>,
)
    requires
        holds_larger_buckets(groups, buckets_of(records), sizes),
    ensures
        is_duplicate_grouping(groups, records, size_key()),
{
    assert forall|g: int| 0 <= g < groups.len() implies size_key()((#[trigger] groups[g])[0])
        == sizes[g] by {
        let of_size = has_key(size_key(), sizes[g]);
        assert(groups[g] == records.filter(of_size));
        records.lemma_filter_pred(of_size, 0);
    }
    assert forall|g: int, h: int| 0 <= g < h < groups.len() implies size_key()(
        (#[trigger] groups[g])[0],
    ) != size_key()((#[trigger] groups[h])[0]) by {
        assert(sizes[g] != sizes[h]);
    }
    assert forall|i: int|
        0 <= i < records.len() && members_with(
            records,
            size_key(),
            size_key()(#[trigger] records[i]),
        ).len() >= 2 implies exists|g: int|
        0 <= g < groups.len() && size_key()((#[trigger] groups[g])[0]) == size_key()(
            records[i],
        ) by {
        let size = records[i].size;
        assert(buckets_of(records).contains_key(size));
        assert(buckets_of(records)[size].len() >= 2);
        let g = choose|g: int| 0 <= g < sizes.len() && sizes[g] == size;
        assert(size_key()(groups[g][0]) == sizes[g]);
    }
}

/// Collects the candidate groups of a whole run: the records are put into
/// buckets by size, in the order in which they came, and the buckets of two
/// records or more are handed out. No group holds records of two sizes.
pub fn collect(records: Vec<FileInfo>) -> (result: CollectorResult)
    ensures
        is_duplicate_grouping(result.buckets.deep_view(), records.deep_view(), size_key()),
        forall|g: int|
            0 <= g < result.buckets.len() ==> (#[trigger] result.buckets.deep_view()[g]).len() >= 2,
        forall|g: int, first: int, second: int|
            0 <= g < result.buckets.len() && 0 <= first < result.buckets.deep_view()[g].len() && 0
                <= second < result.buckets.deep_view()[g].len()
                ==> (#[trigger] result.buckets.deep_view()[g][first]).size
                == (#[trigger] result.buckets.deep_view()[g][second]).size,
{
    let ghost all = records.deep_view();
    let mut buckets: HashMap<u64, Vec<FileInfo>> = HashMap::new();
    assert(bucket_records(buckets@) =~= buckets_of(all.take(0)));
    for file_info in it: records
        invariant
            all == records.deep_view(),
            it.seq() == records@,
            bucket_records(buckets@) == buckets_of(all.take(it.index())),
    {
        proof {
            let done = it.index();
            assert(all.take(done + 1) =~= all.take(done).push(file_info@));
            lemma_buckets_of_push(all.take(done), file_info@);
        }
        bucket_file_by_size(&mut buckets, file_info);
    }
    assert(all.take(all.len() as int) =~= all);
    let groups = filter_potential_duplicates(buckets);
    proof {
        let sizes = choose|sizes: Seq<nat>|
            holds_larger_buckets(groups.deep_view(), buckets_of(all), sizes);
        lemma_larger_buckets_are_candidates(groups.deep_view(), all, sizes);
        let found = groups.deep_view();
        assert forall|g: int, first: int, second: int|
            0 <= g < found.len() && 0 <= first < found[g].len() && 0 <= second
                < found[g].len() implies (#[trigger] found[g][first]).size
            == (#[trigger] found[g][second]).size by {
            lemma_members_share_key(found, all, size_key(), g, first, second);
        }
    }
    CollectorResult { buckets: groups }
}

} // verus!
