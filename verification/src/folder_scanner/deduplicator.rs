//! The content stage: the samples of one candidate group are hashed and
//! grouped by digest, and every group of two or more is a group of duplicates.

use vstd::prelude::*;
use grouping_by::GroupingBy;
use super::duplicates_group::{DuplicatesGroup, HashedContent, HashedSample, Sample, SampleContent};
use super::file_info::{FileInfo, FileRecord};
use super::sampler::{
    extract_sample, head_pieces, lemma_probe_is_repeatable, padded_head, plan_for, sample_of,
    SamplePlan, SampleSource, SourceContent,
};
use super::encoding::{
    hex_lower, hex_lower_text, sha256, sha256_digest, DIGEST_INPUT_LIMIT, DIGEST_SIZE,
};
use super::grouping::{
    has_key, is_duplicate_grouping, is_grouping, keeps_larger_groups,
    lemma_larger_groups_are_duplicates, lemma_members_share_key, lemma_two_members, members_with,
};

verus! {

/// The digest by which samples are compared: the SHA-256 digest of the bytes,
/// in lowercase hexadecimal.
pub open spec fn digest_text(bytes: Seq<u8>) -> Seq<char> {
    hex_lower_text(sha256_digest(bytes))
}

/// Whether SHA-256 is defined on `bytes`: their length in bits fits in 64
/// bits.
pub open spec fn hashable(bytes: Seq<u8>) -> bool {
    bytes.len() < DIGEST_INPUT_LIMIT
}

/// The sample with its digest.
pub open spec fn with_digest(sample: SampleContent) -> HashedContent {
    HashedContent { sample, digest: digest_text(sample.bytes) }
}

/// The sample with its digest, where it has one.
pub open spec fn hashed(sample: SampleContent) -> Option<HashedContent> {
    if hashable(sample.bytes) {
        Some(with_digest(sample))
    } else {
        None
    }
}

/// Whether every one of `items` has a digest of 64 characters: two for each
/// byte of a SHA-256 digest.
pub open spec fn has_whole_digests(items: Seq<HashedContent>) -> bool {
    forall|i: int| 0 <= i < items.len() ==> (#[trigger] items[i]).digest.len() == 2 * DIGEST_SIZE
}

/// Pairs a sample with the digest of its bytes, which has 64 characters. Only
/// a sample too long for SHA-256 has none.
pub fn hash_sample(sample: Sample) -> (result: Option<HashedSample>)
    ensures
        result.deep_view() == hashed(sample@),
        result matches Some(hashed_sample) ==> hashed_sample.hash@.len() == 2 * DIGEST_SIZE,
{
    if (sample.bytes.len() as u64) < DIGEST_INPUT_LIMIT {
        let digest = sha256(sample.bytes.as_slice());
        let hash = hex_lower(digest.as_slice());
        Some(HashedSample { sample, hash })
    } else {
        None
    }
}

/// The key by which hashed samples are grouped: their digest.
pub open spec fn digest_key() -> spec_fn(HashedContent) -> Seq<char> {
    |item: HashedContent| item.digest
}

/// The test that `hashed_all` applies to each sample.
pub open spec fn has_digest() -> spec_fn(SampleContent) -> bool {
    |sample: SampleContent| hashable(sample.bytes)
}

/// The samples that have a digest, each with its digest, in their order.
pub open spec fn hashed_all(samples: Seq<SampleContent>) -> Seq<HashedContent> {
    samples.filter(has_digest()).map_values(|sample: SampleContent| with_digest(sample))
}

/// Hashes every sample, leaving out those that have no digest.
pub fn hash_samples(samples: Vec<Sample>) -> (result: Vec<HashedSample>)
    ensures
        result.deep_view() == hashed_all(samples.deep_view()),
        has_whole_digests(result.deep_view()),
{
    let ghost all = samples.deep_view();
    let mut result: Vec<HashedSample> = Vec::new();
    assert(hashed_all(all.take(0)) =~= Seq::empty()) by {
        reveal(Seq::filter);
    }
    for sample in it: samples
        invariant
            all == samples.deep_view(),
            it.seq() == samples@,
            result.deep_view() =~= hashed_all(all.take(it.index())),
            has_whole_digests(result.deep_view()),
    {
        let ghost done = it.index();
        let ghost before = result.deep_view();
        let ghost content = sample@;
        match hash_sample(sample) {
            Some(hashed_sample) => {
                let ghost added = hashed_sample@;
                result.push(hashed_sample);
                assert(result.deep_view() =~= before.push(with_digest(content)));
                assert forall|i: int| 0 <= i < result.deep_view().len() implies (
                #[trigger] result.deep_view()[i]).digest.len() == 2 * DIGEST_SIZE by {
                    if i < before.len() {
                        assert(result.deep_view()[i] == before[i]);
                    } else {
                        assert(result.deep_view()[i] == added);
                    }
                }
            },
            None => {},
        }
        proof {
            let next = all.take(done + 1);
            assert(next.drop_last() =~= all.take(done));
            assert(next.last() == content);
            assert(next.filter(has_digest()) == if hashable(content.bytes) {
                all.take(done).filter(has_digest()).push(content)
            } else {
                all.take(done).filter(has_digest())
            }) by {
                reveal(Seq::filter);
            }
        }
    }
    assert(all.take(all.len() as int) =~= all);
    result
}

/// Calls `grouping_by::GroupingBy::grouping_by` with the digest as the key,
/// and hands out the groups of the map that it builds, without their keys.
///
/// Trusted: the call puts each item, in the order of the input, at the end of
/// the group of its key, and keys are the same when they hold the same text.
/// So each group holds all the samples of one digest in their order, there is
/// one group for each digest that occurs, and no sample is left out. The order
/// in which the map hands out its groups is not fixed, and nothing is said of
/// it.
#[verifier::external_body]
pub(crate) fn group_by_digest(samples: Vec<HashedSample>) -> (groups: Vec<Vec<HashedSample>>)
    ensures
        is_grouping(groups.deep_view(), samples.deep_view(), digest_key()),
{
    let by_digest = samples.into_iter().grouping_by(|hashed_sample| hashed_sample.hash.clone());
    by_digest.into_values().collect()
}

/// Keeps the groups of two members or more: each is a group of duplicates.
fn into_duplicate_groups(groups: Vec<Vec<HashedSample>>) -> (result: (
    Vec<DuplicatesGroup>,
    Ghost<Seq<int>>,
))
    ensures
        keeps_larger_groups(result.0.deep_view(), groups.deep_view(), result.1@),
{
    let ghost all = groups.deep_view();
    let ghost mut origin: Seq<int> = Seq::empty();
    let mut kept: Vec<DuplicatesGroup> = Vec::new();
    for group in it: groups
        invariant
            all == groups.deep_view(),
            it.seq() == groups@,
            keeps_larger_groups(kept.deep_view(), all.take(it.index()), origin),
    {
        let ghost done = it.index();
        let ghost before = kept.deep_view();
        let ghost before_origin = origin;
        assert(all[done] == group.deep_view());
        if group.len() > 1 {
            kept.push(DuplicatesGroup { item: group });
            proof {
                origin = origin.push(done);
                assert(kept.deep_view() =~= before.push(all[done]));
            }
        }
        proof {
            let after = kept.deep_view();
            assert forall|k: int| 0 <= k < after.len() implies 0 <= #[trigger] origin[k] < all.take(
                done + 1,
            ).len() && after[k] == all.take(done + 1)[origin[k]] && after[k].len() >= 2 by {
                if k < before.len() {
                    assert(before[k] == all.take(done)[before_origin[k]]);
                }
            }
            assert forall|g: int|
                0 <= g < all.take(done + 1).len() && (#[trigger] all.take(done + 1)[g]).len()
                    >= 2 implies exists|k: int|
                0 <= k < after.len() && #[trigger] origin[k] == g by {
                if g < done {
                    assert(all.take(done)[g].len() >= 2);
                    let k = choose|k: int|
                        0 <= k < before.len() && #[trigger] before_origin[k] == g;
                    assert(origin[k] == g);
                } else {
                    assert(origin[after.len() - 1] == g);
                }
            }
        }
    }
    assert(all.take(all.len() as int) =~= all);
    (kept, Ghost(origin))
}

/// Whether every member of every group has a digest of 64 characters.
pub open spec fn have_whole_digests(groups: Seq<Seq<HashedContent>>) -> bool {
    forall|g: int| 0 <= g < groups.len() ==> has_whole_digests(#[trigger] groups[g])
}

/// The members of a group of duplicates are among the items that were
/// grouped, so what holds of the digest of every item holds of theirs.
proof fn lemma_groups_have_whole_digests(
    groups: Seq<Seq<HashedContent>>,
    items: Seq<HashedContent>,
)
    requires
        is_duplicate_grouping(groups, items, digest_key()),
        has_whole_digests(items),
    ensures
        have_whole_digests(groups),
{
    assert forall|g: int| 0 <= g < groups.len() implies has_whole_digests(
        #[trigger] groups[g],
    ) by {
        let with_key = has_key(digest_key(), digest_key()(groups[g][0]));
        assert(groups[g] == items.filter(with_key));
        assert forall|i: int| 0 <= i < groups[g].len() implies (#[trigger] groups[g][i]).digest.len()
            == 2 * DIGEST_SIZE by {
            items.lemma_filter_contains_rev(with_key, groups[g][i]);
            let k = choose|k: int| 0 <= k < items.len() && items[k] == groups[g][i];
            assert(items[k].digest.len() == 2 * DIGEST_SIZE);
        }
    }
}

/// Finds the duplicates among the samples of one candidate group: the samples
/// are hashed and grouped by digest, and the groups of two or more are handed
/// out. A sample whose digest no other sample has is in no group.
pub fn find_duplicates(samples: Vec<Sample>) -> (duplicates: Vec<DuplicatesGroup>)
    ensures
        is_duplicate_grouping(
            duplicates.deep_view(),
            hashed_all(samples.deep_view()),
            digest_key(),
        ),
        have_whole_digests(duplicates.deep_view()),
{
    let ghost items = hashed_all(samples.deep_view());
    let hashed_samples = hash_samples(samples);
    let groups = group_by_digest(hashed_samples);
    let ghost all = groups.deep_view();
    let (duplicates, origin) = into_duplicate_groups(groups);
    proof {
        lemma_larger_groups_are_duplicates(duplicates.deep_view(), all, origin@, items, digest_key());
        lemma_groups_have_whole_digests(duplicates.deep_view(), items);
    }
    duplicates
}

/// Two samples that have a digest stand in `hashed_all` in the order in which
/// they stand among the samples.
proof fn lemma_hashed_positions(samples: Seq<SampleContent>, first: int, second: int) -> (places: (
    int,
    int,
))
    requires
        0 <= first < second < samples.len(),
        hashable(samples[first].bytes),
        hashable(samples[second].bytes),
    ensures
        0 <= places.0 < places.1 < hashed_all(samples).len(),
        hashed_all(samples)[places.0] == with_digest(samples[first]),
        hashed_all(samples)[places.1] == with_digest(samples[second]),
{
    let head = samples.take(second);
    let tail = samples.skip(second);
    assert(samples =~= head + tail);
    Seq::filter_distributes_over_add(head, tail, has_digest());
    assert(head[first] == samples[first]);
    assert(tail[0] == samples[second]);
    head.lemma_filter_contains(has_digest(), first);
    tail.lemma_filter_contains(has_digest(), 0);
    let kept_head = head.filter(has_digest());
    let kept_tail = tail.filter(has_digest());
    let low = choose|low: int| 0 <= low < kept_head.len() && kept_head[low] == samples[first];
    let high = choose|high: int| 0 <= high < kept_tail.len() && kept_tail[high] == samples[second];
    assert((kept_head + kept_tail)[kept_head.len() + high] == kept_tail[high]);
    (low, kept_head.len() + high)
}

/// No duplicate is missed within a candidate group: two samples with the same
/// bytes are members of one group of duplicates, and of no other group.
///
/// This is stated of samples that have a digest, which is every sample of
/// fewer than 2^61 bytes; a longer one is in no group at all.
pub proof fn lemma_same_bytes_same_group(
    samples: Seq<SampleContent>,
    duplicates: Seq<Seq<HashedContent>>,
    first: int,
    second: int,
)
    requires
        is_duplicate_grouping(duplicates, hashed_all(samples), digest_key()),
        0 <= first < samples.len(),
        0 <= second < samples.len(),
        first != second,
        samples[first].bytes == samples[second].bytes,
        hashable(samples[first].bytes),
    ensures
        exists|g: int|
            0 <= g < duplicates.len() && (#[trigger] duplicates[g]).contains(
                with_digest(samples[first]),
            ) && duplicates[g].contains(with_digest(samples[second])) && forall|h: int|
                0 <= h < duplicates.len() && h != g ==> !(#[trigger] duplicates[h]).contains(
                    with_digest(samples[first]),
                ) && !duplicates[h].contains(with_digest(samples[second])),
{
    let items = hashed_all(samples);
    let (low, high) = if first < second {
        lemma_hashed_positions(samples, first, second)
    } else {
        lemma_hashed_positions(samples, second, first)
    };
    let digest = digest_key()(items[low]);
    assert(digest == digest_key()(items[high]));
    lemma_two_members(items, digest_key(), low, high);
    let g = choose|g: int|
        0 <= g < duplicates.len() && digest_key()((#[trigger] duplicates[g])[0]) == digest;
    assert(duplicates[g] == members_with(items, digest_key(), digest));
    assert forall|h: int| 0 <= h < duplicates.len() && h != g implies !(
    #[trigger] duplicates[h]).contains(with_digest(samples[first])) && !duplicates[h].contains(
        with_digest(samples[second]),
    ) by {
        if duplicates[h].contains(with_digest(samples[first])) || duplicates[h].contains(
            with_digest(samples[second]),
        ) {
            let member = if duplicates[h].contains(with_digest(samples[first])) {
                with_digest(samples[first])
            } else {
                with_digest(samples[second])
            };
            let i = choose|i: int| 0 <= i < duplicates[h].len() && duplicates[h][i] == member;
            lemma_members_share_key(duplicates, items, digest_key(), h, 0, i);
            assert(digest_key()(duplicates[h][0]) == digest);
            if h < g {
                assert(digest_key()(duplicates[h][0]) != digest_key()(duplicates[g][0]));
            } else {
                assert(digest_key()(duplicates[g][0]) != digest_key()(duplicates[h][0]));
            }
        }
    }
}

/// Every member of a group of duplicates is one of the samples, with its
/// digest. So a sample that has no digest is in no group.
pub proof fn lemma_members_are_hashed_samples(
    samples: Seq<SampleContent>,
    duplicates: Seq<Seq<HashedContent>>,
    member: HashedContent,
    g: int,
)
    requires
        is_duplicate_grouping(duplicates, hashed_all(samples), digest_key()),
        0 <= g < duplicates.len(),
        duplicates[g].contains(member),
    ensures
        hashable(member.sample.bytes),
        samples.contains(member.sample),
        member == with_digest(member.sample),
{
    let items = hashed_all(samples);
    let with_key = has_key(digest_key(), digest_key()(duplicates[g][0]));
    assert(duplicates[g] == items.filter(with_key));
    items.lemma_filter_contains_rev(with_key, member);
    let k = choose|k: int| 0 <= k < items.len() && items[k] == member;
    let kept = samples.filter(has_digest());
    assert(items[k] == with_digest(kept[k]));
    samples.lemma_filter_pred(has_digest(), k);
    samples.lemma_filter_contains_rev(has_digest(), kept[k]);
}

/// One file of a candidate group together with what the reads on it gave.
#[derive(Debug)]
pub struct FileRead {
    pub file_info: FileInfo,
    pub source: SampleSource,
}

/// The mathematical content of a [`FileRead`].
pub struct FileReadContent {
    pub record: FileRecord,
    pub source: SourceContent,
}

impl View for FileRead {
    type V = FileReadContent;

    open spec fn view(&self) -> FileReadContent {
        FileReadContent { record: self.file_info@, source: self.source@ }
    }
}

impl DeepView for FileRead {
    type V = FileReadContent;

    open spec fn deep_view(&self) -> FileReadContent {
        self@
    }
}

/// The test that `samples_of` applies to each file: whether it has a sample.
pub open spec fn has_sample() -> spec_fn(FileReadContent) -> bool {
    |read: FileReadContent| sample_of(read.record, read.source) is Some
}

/// The samples of the files that have one, in the order of the files. A file
/// that could not be read drops out here.
pub open spec fn samples_of(reads: Seq<FileReadContent>) -> Seq<SampleContent> {
    reads.filter(has_sample()).map_values(
        |read: FileReadContent| sample_of(read.record, read.source)->0,
    )
}

/// Builds the samples of a candidate group, leaving out the files that have
/// none.
pub fn collect_samples(reads: Vec<FileRead>) -> (samples: Vec<Sample>)
    ensures
        samples.deep_view() == samples_of(reads.deep_view()),
{
    let ghost all = reads.deep_view();
    let mut samples: Vec<Sample> = Vec::new();
    assert(samples_of(all.take(0)) =~= Seq::empty()) by {
        reveal(Seq::filter);
    }
    for read in it: reads
        invariant
            all == reads.deep_view(),
            it.seq() == reads@,
            samples.deep_view() =~= samples_of(all.take(it.index())),
    {
        let ghost done = it.index();
        let ghost before = samples.deep_view();
        let ghost content = read@;
        match extract_sample(&read.file_info, read.source) {
            Some(sample) => {
                samples.push(sample);
                assert(samples.deep_view() =~= before.push(
                    sample_of(content.record, content.source)->0,
                ));
            },
            None => {},
        }
        proof {
            let next = all.take(done + 1);
            assert(next.drop_last() =~= all.take(done));
            assert(next.last() == content);
            assert(next.filter(has_sample()) == if has_sample()(content) {
                all.take(done).filter(has_sample()).push(content)
            } else {
                all.take(done).filter(has_sample())
            }) by {
                reveal(Seq::filter);
            }
        }
    }
    assert(all.take(all.len() as int) =~= all);
    samples
}

/// The work of a worker on one candidate group, once its files were read:
/// the files are sampled, the samples hashed and grouped by digest, and the
/// groups of two or more are the duplicates to publish, one by one.
pub fn handle_request(reads: Vec<FileRead>) -> (duplicates: Vec<DuplicatesGroup>)
    ensures
        is_duplicate_grouping(
            duplicates.deep_view(),
            hashed_all(samples_of(reads.deep_view())),
            digest_key(),
        ),
        have_whole_digests(duplicates.deep_view()),
{
    find_duplicates(collect_samples(reads))
}

/// The number of workers of the pool.
pub const MAX_WORKERS: usize = 3;

/// What is put on the work queue of the pool.
#[derive(Debug)]
pub enum Message {
    /// A candidate group to look for duplicates in.
    Request { file_info: Vec<FileInfo> },
    /// The order to one worker to leave its loop.
    Terminate,
}

/// The mathematical content of a [`Message`].
pub enum MessageContent {
    Request { records: Seq<FileRecord> },
    Terminate,
}

impl View for Message {
    type V = MessageContent;

    open spec fn view(&self) -> MessageContent {
        match self {
            Message::Request { file_info } => MessageContent::Request {
                records: file_info.deep_view(),
            },
            Message::Terminate => MessageContent::Terminate,
        }
    }
}

impl DeepView for Message {
    type V = MessageContent;

    open spec fn deep_view(&self) -> MessageContent {
        self@
    }
}

/// What a worker does next.
#[derive(Debug)]
pub enum WorkerStep {
    /// Read the files of this candidate group, publish its duplicates, and
    /// receive again.
    Process(Vec<FileInfo>),
    /// Leave the loop. A worker that left does not come back.
    Exit,
}

/// The mathematical content of a [`WorkerStep`].
pub enum WorkerStepContent {
    Process(Seq<FileRecord>),
    Exit,
}

impl View for WorkerStep {
    type V = WorkerStepContent;

    open spec fn view(&self) -> WorkerStepContent {
        match self {
            WorkerStep::Process(file_info) => WorkerStepContent::Process(file_info.deep_view()),
            WorkerStep::Exit => WorkerStepContent::Exit,
        }
    }
}

/// The step of an idle worker on what it received: a request is processed;
/// the order to terminate, or a queue that broke off (`None`), ends the
/// worker.
pub open spec fn step_on(received: Option<MessageContent>) -> WorkerStepContent {
    match received {
        Some(MessageContent::Request { records }) => WorkerStepContent::Process(records),
        Some(MessageContent::Terminate) => WorkerStepContent::Exit,
        None => WorkerStepContent::Exit,
    }
}

/// Decides what an idle worker does on what it received from the queue.
pub fn worker_step(received: Option<Message>) -> (step: WorkerStep)
    ensures
        step@ == step_on(received.deep_view()),
{
    match received {
        Some(Message::Request { file_info }) => WorkerStep::Process(file_info),
        Some(Message::Terminate) => WorkerStep::Exit,
        None => WorkerStep::Exit,
    }
}

/// One step of the dispatcher.
#[derive(Debug)]
pub enum DispatchStep {
    /// Start one worker of the pool.
    StartWorker,
    /// Put a message on the work queue.
    Send(Message),
    /// Wait until one worker has left its loop.
    JoinWorker,
    /// Put the sentinel on the result stream.
    SignalEnd,
}

/// The mathematical content of a [`DispatchStep`].
pub enum DispatchStepContent {
    StartWorker,
    Send(MessageContent),
    JoinWorker,
    SignalEnd,
}

impl View for DispatchStep {
    type V = DispatchStepContent;

    open spec fn view(&self) -> DispatchStepContent {
        match self {
            DispatchStep::StartWorker => DispatchStepContent::StartWorker,
            DispatchStep::Send(message) => DispatchStepContent::Send(message@),
            DispatchStep::JoinWorker => DispatchStepContent::JoinWorker,
            DispatchStep::SignalEnd => DispatchStepContent::SignalEnd,
        }
    }
}

impl DeepView for DispatchStep {
    type V = DispatchStepContent;

    open spec fn deep_view(&self) -> DispatchStepContent {
        self@
    }
}

/// `count` times the same step.
pub open spec fn repeated(step: DispatchStepContent, count: nat) -> Seq<DispatchStepContent> {
    Seq::new(count, |i: int| step)
}

/// The steps of the dispatcher for the candidate groups of a run: the pool is
/// started before any work is sent; every group is sent as a request, in
/// order; then one order to terminate is sent for each worker; then every
/// worker is waited for; and only then the end is signalled.
pub open spec fn dispatch_schedule(groups: Seq<Seq<FileRecord>>) -> Seq<DispatchStepContent> {
    repeated(DispatchStepContent::StartWorker, MAX_WORKERS as nat) + groups.map_values(
        |records: Seq<FileRecord>| DispatchStepContent::Send(MessageContent::Request { records }),
    ) + repeated(DispatchStepContent::Send(MessageContent::Terminate), MAX_WORKERS as nat)
        + repeated(DispatchStepContent::JoinWorker, MAX_WORKERS as nat).push(
        DispatchStepContent::SignalEnd,
    )
}

/// The steps that the dispatcher takes once for each worker.
#[derive(Clone, Copy)]
enum PoolStep {
    Start,
    Terminate,
    Join,
}

impl PoolStep {
    spec fn content(self) -> DispatchStepContent {
        match self {
            PoolStep::Start => DispatchStepContent::StartWorker,
            PoolStep::Terminate => DispatchStepContent::Send(MessageContent::Terminate),
            PoolStep::Join => DispatchStepContent::JoinWorker,
        }
    }

    fn step(self) -> (step: DispatchStep)
        ensures
            step@ == self.content(),
    {
        match self {
            PoolStep::Start => DispatchStep::StartWorker,
            PoolStep::Terminate => DispatchStep::Send(Message::Terminate),
            PoolStep::Join => DispatchStep::JoinWorker,
        }
    }
}

/// Adds one step of the given kind for each worker of the pool.
fn push_for_each_worker(steps: &mut Vec<DispatchStep>, kind: PoolStep)
    ensures
        final(steps).deep_view() == old(steps).deep_view() + repeated(
            kind.content(),
            MAX_WORKERS as nat,
        ),
{
    let ghost before = steps.deep_view();
    let mut worker: usize = 0;
    while worker < MAX_WORKERS
        invariant
            worker <= MAX_WORKERS,
            steps.deep_view() =~= before + repeated(kind.content(), worker as nat),
        decreases MAX_WORKERS - worker,
    {
        let ghost held = steps.deep_view();
        steps.push(kind.step());
        assert(steps.deep_view() =~= held.push(kind.content()));
        worker += 1;
    }
}

/// Lays out the steps of the dispatcher for the candidate groups of a run.
pub fn dispatch(buckets: Vec<Vec<FileInfo>>) -> (steps: Vec<DispatchStep>)
    ensures
        steps.deep_view() == dispatch_schedule(buckets.deep_view()),
{
    let ghost groups = buckets.deep_view();
    let ghost request = |records: Seq<FileRecord>|
        DispatchStepContent::Send(MessageContent::Request { records });
    let mut steps: Vec<DispatchStep> = Vec::new();
    push_for_each_worker(&mut steps, PoolStep::Start);
    let ghost started = steps.deep_view();
    for file_info in it: buckets
        invariant
            groups == buckets.deep_view(),
            it.seq() == buckets@,
            request == |records: Seq<FileRecord>|
                DispatchStepContent::Send(MessageContent::Request { records }),
            steps.deep_view() =~= started + groups.take(it.index()).map_values(request),
    {
        let ghost held = steps.deep_view();
        let ghost records = file_info.deep_view();
        steps.push(DispatchStep::Send(Message::Request { file_info }));
        assert(steps.deep_view() =~= held.push(request(records)));
    }
    assert(groups.take(groups.len() as int) =~= groups);
    push_for_each_worker(&mut steps, PoolStep::Terminate);
    push_for_each_worker(&mut steps, PoolStep::Join);
    let ghost joined = steps.deep_view();
    steps.push(DispatchStep::SignalEnd);
    assert(steps.deep_view() =~= joined.push(DispatchStepContent::SignalEnd));
    assert(steps.deep_view() =~= dispatch_schedule(groups));
    steps
}

/// The order of the shutdown: the requests stand between the start of the
/// pool and the orders to terminate, of which there is one for each worker;
/// every worker is waited for after that; and the end is signalled once, as
/// the last step of all. So whoever sees the sentinel has been sent every
/// group before.
pub proof fn lemma_end_is_signalled_last(groups: Seq<Seq<FileRecord>>)
    ensures
        dispatch_schedule(groups).len() == 3 * MAX_WORKERS + groups.len() + 1,
        forall|i: int|
            0 <= i < MAX_WORKERS ==> #[trigger] dispatch_schedule(groups)[i]
                == DispatchStepContent::StartWorker,
        forall|g: int|
            0 <= g < groups.len() ==> #[trigger] dispatch_schedule(groups)[MAX_WORKERS + g]
                == DispatchStepContent::Send(MessageContent::Request { records: groups[g] }),
        forall|i: int|
            0 <= i < MAX_WORKERS ==> #[trigger] dispatch_schedule(groups)[MAX_WORKERS
                + groups.len() + i] == DispatchStepContent::Send(MessageContent::Terminate),
        forall|i: int|
            0 <= i < MAX_WORKERS ==> #[trigger] dispatch_schedule(groups)[2 * MAX_WORKERS
                + groups.len() + i] == DispatchStepContent::JoinWorker,
        dispatch_schedule(groups).last() == DispatchStepContent::SignalEnd,
        forall|i: int|
            0 <= i < dispatch_schedule(groups).len() - 1 ==> #[trigger] dispatch_schedule(groups)[i]
                != DispatchStepContent::SignalEnd,
{
    let steps = dispatch_schedule(groups);
    assert forall|i: int| 0 <= i < steps.len() - 1 implies #[trigger] steps[i]
        != DispatchStepContent::SignalEnd by {
        if i < MAX_WORKERS {
        } else if i < MAX_WORKERS + groups.len() {
            assert(steps[MAX_WORKERS + (i - MAX_WORKERS)] is Send);
        } else if i < 2 * MAX_WORKERS + groups.len() {
            assert(steps[MAX_WORKERS + groups.len() + (i - MAX_WORKERS - groups.len())] is Send);
        } else {
            assert(steps[2 * MAX_WORKERS + groups.len() + (i - 2 * MAX_WORKERS - groups.len())]
                is JoinWorker);
        }
    }
}

/// The digest of a sample is a function of its bytes: files that were sampled
/// to the same bytes have the same digest, at whatever time they were read.
pub proof fn lemma_same_bytes_same_digest(first: SampleContent, second: SampleContent)
    requires
        first.bytes == second.bytes,
    ensures
        hashed(first) is Some <==> hashed(second) is Some,
        hashed(first) is Some ==> hashed(first)->0.digest == hashed(second)->0.digest,
{
}

/// Probing a large file again, while its head is what it was, gives the same
/// sample of `PROBE_SIZE` bytes and the same digest.
pub proof fn lemma_probing_again_gives_same_digest(
    record: FileRecord,
    first: Seq<u8>,
    second: Seq<u8>,
)
    requires
        plan_for(record.size) == SamplePlan::HeadProbe,
        padded_head(first) == padded_head(second),
    ensures
        sample_of(record, SourceContent::Pieces(head_pieces(first))) is Some,
        hashed(sample_of(record, SourceContent::Pieces(head_pieces(first)))->0) is Some,
        hashed(sample_of(record, SourceContent::Pieces(head_pieces(first)))->0) == hashed(
            sample_of(record, SourceContent::Pieces(head_pieces(second)))->0,
        ),
{
    lemma_probe_is_repeatable(record, first, second);
}

} // verus!
