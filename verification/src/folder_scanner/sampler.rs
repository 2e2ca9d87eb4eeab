//! The two-tier sampling rule: a small file is compared by its whole content,
//! a large one by a probe of its head. The reads themselves are the caller's;
//! this module says what is to be read and builds the sample from what came
//! back. A file on which a read failed has no sample.

use vstd::prelude::*;
use super::file_info::{FileInfo, FileRecord};
use super::duplicates_group::{Sample, SampleContent};

verus! {

/// The largest size, in bytes, of a file that is sampled whole (512 KiB).
pub const WHOLE_FILE_LIMIT: u64 = 524_288;

/// The number of pieces that make up the probe of a large file.
pub const PIECES: usize = 8;

/// The size of one piece of the probe, in bytes (10 KiB).
pub const PIECE_SIZE: usize = 10_240;

/// The size of the probe of a large file, in bytes (80 KiB): `PIECES` pieces
/// of `PIECE_SIZE` bytes.
pub const PROBE_SIZE: usize = 81_920;

/// How a file of a given size is sampled.
#[derive(Clone, Copy, Debug, PartialEq, Eq, Structural)]
pub enum SamplePlan {
    /// One read of the whole file.
    WholeFile,
    /// `PIECES` reads of `PIECE_SIZE` bytes each, back to back from the start
    /// of the file.
    HeadProbe,
}

/// The plan for a file of `size` bytes.
pub open spec fn plan_for(size: nat) -> SamplePlan {
    if size <= WHOLE_FILE_LIMIT {
        SamplePlan::WholeFile
    } else {
        SamplePlan::HeadProbe
    }
}

/// The offset in the file at which piece `index` of the probe starts.
pub open spec fn piece_start(index: int) -> int {
    index * PIECE_SIZE
}

/// What the reads on one file gave.
#[derive(Debug)]
pub enum SampleSource {
    /// The file could not be opened, or the read of the whole file failed.
    Unreadable,
    /// The content of the file, from one read of all of it.
    Whole(Vec<u8>),
    /// The outcome of each read of the probe, in the order of the pieces: the
    /// bytes that the read delivered, which are fewer than were asked for
    /// where the file ends before, or `None` where the seek or the read
    /// failed.
    Pieces(Vec<Option<Vec<u8>>>),
}

/// The mathematical content of a [`SampleSource`].
pub enum SourceContent {
    Unreadable,
    Whole(Seq<u8>),
    Pieces(Seq<Option<Seq<u8>>>),
}

impl View for SampleSource {
    type V = SourceContent;

    open spec fn view(&self) -> SourceContent {
        match self {
            SampleSource::Unreadable => SourceContent::Unreadable,
            SampleSource::Whole(bytes) => SourceContent::Whole(bytes@),
            SampleSource::Pieces(pieces) => SourceContent::Pieces(pieces.deep_view()),
        }
    }
}

impl DeepView for SampleSource {
    type V = SourceContent;

    open spec fn deep_view(&self) -> SourceContent {
        self@
    }
}

/// Whether `pieces` are the reads of a probe, all of which went well: there
/// is one for each piece, none failed, and none delivered more than a piece.
pub open spec fn is_probe_read(pieces: Seq<Option<Seq<u8>>>) -> bool {
    &&& pieces.len() == PIECES
    &&& forall|piece: int|
        0 <= piece < pieces.len() ==> (#[trigger] pieces[piece]) is Some && pieces[piece]->0.len()
            <= PIECE_SIZE
}

/// The byte at `position` of the probe built from `pieces`: the byte that the
/// read of its piece delivered for it, and zero where that read fell short.
pub open spec fn probe_byte(pieces: Seq<Option<Seq<u8>>>, position: int) -> u8 {
    let piece = position / (PIECE_SIZE as int);
    let within = position % (PIECE_SIZE as int);
    if 0 <= piece < pieces.len() && pieces[piece] is Some && within < pieces[piece]->0.len() {
        pieces[piece]->0[within]
    } else {
        0
    }
}

/// The bytes of the probe built from `pieces`: always `PROBE_SIZE` of them.
pub open spec fn probe_bytes(pieces: Seq<Option<Seq<u8>>>) -> Seq<u8> {
    Seq::new(PROBE_SIZE as nat, |position: int| probe_byte(pieces, position))
}

/// The probe built from `pieces`. There is none where a read failed, or
/// where the reads are not those of a probe.
pub open spec fn probe_of(pieces: Seq<Option<Seq<u8>>>) -> Option<Seq<u8>> {
    if is_probe_read(pieces) {
        Some(probe_bytes(pieces))
    } else {
        None
    }
}

/// The sample of the file `record`, given what the reads on it gave. There is
/// none where the file was unreadable or a read of its probe failed, and none
/// where the reads are not those of the plan for its size.
pub open spec fn sample_of(record: FileRecord, source: SourceContent) -> Option<SampleContent> {
    match source {
        SourceContent::Unreadable => None,
        SourceContent::Whole(bytes) => if plan_for(record.size) == SamplePlan::WholeFile {
            Some(SampleContent { record, bytes })
        } else {
            None
        },
        SourceContent::Pieces(pieces) => if plan_for(record.size) == SamplePlan::HeadProbe
            && is_probe_read(pieces) {
            Some(SampleContent { record, bytes: probe_bytes(pieces) })
        } else {
            None
        },
    }
}

/// Chooses between the whole file and the probe of its head.
pub fn sample_plan(size: u64) -> (plan: SamplePlan)
    ensures
        plan == plan_for(size as nat),
{
    if size <= WHOLE_FILE_LIMIT {
        SamplePlan::WholeFile
    } else {
        SamplePlan::HeadProbe
    }
}

/// The offsets at which the reads of a probe start: 0, 10 KiB, .., 70 KiB.
pub fn probe_offsets() -> (offsets: Vec<u64>)
    ensures
        offsets@.len() == PIECES,
        forall|index: int| 0 <= index < PIECES ==> offsets@[index] == piece_start(index),
{
    let mut offsets: Vec<u64> = Vec::new();
    let mut index: usize = 0;
    while index < PIECES
        invariant
            index <= PIECES,
            offsets@.len() == index,
            forall|i: int| 0 <= i < index ==> offsets@[i] == piece_start(i),
        decreases PIECES - index,
    {
        offsets.push((index * PIECE_SIZE) as u64);
        index += 1;
    }
    offsets
}

/// Tests whether the reads of a probe all went well.
fn went_well(pieces: &Vec<Option<Vec<u8>>>) -> (well: bool)
    ensures
        well == is_probe_read(pieces.deep_view()),
{
    if pieces.len() != PIECES {
        return false;
    }
    let mut piece: usize = 0;
    while piece < PIECES
        invariant
            piece <= PIECES,
            pieces.len() == PIECES,
            forall|i: int|
                0 <= i < piece ==> (#[trigger] pieces.deep_view()[i]) is Some
                    && pieces.deep_view()[i]->0.len() <= PIECE_SIZE,
        decreases PIECES - piece,
    {
        match &pieces[piece] {
            Some(bytes) => {
                if bytes.len() > PIECE_SIZE {
                    assert(pieces.deep_view()[piece as int]->0.len() > PIECE_SIZE);
                    return false;
                }
            },
            None => {
                assert(pieces.deep_view()[piece as int] is None);
                return false;
            },
        }
        piece += 1;
    }
    true
}

/// Lays the pieces out in a zeroed buffer of `PROBE_SIZE` bytes, piece `i` at
/// offset `i * PIECE_SIZE`. Where a read failed there is no probe.
pub fn assemble_probe(pieces: &Vec<Option<Vec<u8>>>) -> (probe: Option<Vec<u8>>)
    ensures
        probe.deep_view() == probe_of(pieces.deep_view()),
        probe matches Some(bytes) ==> bytes@ == probe_bytes(pieces.deep_view()) && bytes@.len()
            == PROBE_SIZE,
{
    if !went_well(pieces) {
        return None;
    }
    let ghost reads = pieces.deep_view();
    let mut probe: Vec<u8> = Vec::new();
    let mut piece: usize = 0;
    while piece < PIECES
        invariant
            piece <= PIECES,
            reads == pieces.deep_view(),
            is_probe_read(reads),
            probe@.len() == piece * PIECE_SIZE,
            forall|p: int| 0 <= p < probe@.len() ==> probe@[p] == probe_byte(reads, p),
        decreases PIECES - piece,
    {
        let mut within: usize = 0;
        while within < PIECE_SIZE
            invariant
                piece < PIECES,
                within <= PIECE_SIZE,
                reads == pieces.deep_view(),
                is_probe_read(reads),
                probe@.len() == piece * PIECE_SIZE + within,
                forall|p: int| 0 <= p < probe@.len() ==> probe@[p] == probe_byte(reads, p),
            decreases PIECE_SIZE - within,
        {
            let byte: u8 = match &pieces[piece] {
                Some(bytes) => {
                    if within < bytes.len() {
                        bytes[within]
                    } else {
                        0
                    }
                },
                None => 0,
            };
            proof {
                let position = piece * PIECE_SIZE + within;
                assert(position / (PIECE_SIZE as int) == piece);
                assert(position % (PIECE_SIZE as int) == within);
                assert(reads[piece as int] is Some);
                assert(byte == probe_byte(reads, position));
            }
            probe.push(byte);
            within += 1;
        }
        piece += 1;
    }
    assert(probe@ =~= probe_bytes(reads));
    assert(probe.deep_view() =~= probe@);
    Some(probe)
}

/// Builds the sample of one file from what the reads on it gave. The sample
/// of a file of at most `WHOLE_FILE_LIMIT` bytes is its content, byte for
/// byte; that of a larger file is a probe of `PROBE_SIZE` bytes. A file that
/// could not be opened, or on which a seek or a read failed, has no sample.
pub fn extract_sample(file_info: &FileInfo, source: SampleSource) -> (sample: Option<Sample>)
    ensures
        sample.deep_view() == sample_of(file_info@, source@),
        file_info.size <= WHOLE_FILE_LIMIT ==> match source@ {
            SourceContent::Whole(content) => sample matches Some(taken) && taken.bytes@ == content
                && taken.file_info@ == file_info@,
            _ => sample is None,
        },
        file_info.size > WHOLE_FILE_LIMIT ==> match source@ {
            SourceContent::Pieces(pieces) => if is_probe_read(pieces) {
                sample matches Some(taken) && taken.bytes@ == probe_bytes(pieces)
                    && taken.bytes@.len() == PROBE_SIZE && taken.file_info@ == file_info@
            } else {
                sample is None
            },
            _ => sample is None,
        },
        source@ matches SourceContent::Pieces(pieces) ==> (exists|piece: int|
            0 <= piece < pieces.len() && (#[trigger] pieces[piece]) is None) ==> sample is None,
{
    match source {
        SampleSource::Unreadable => None,
        SampleSource::Whole(bytes) => {
            if file_info.size <= WHOLE_FILE_LIMIT {
                Some(Sample { file_info: file_info.clone(), bytes })
            } else {
                None
            }
        },
        SampleSource::Pieces(pieces) => {
            if file_info.size > WHOLE_FILE_LIMIT {
                match assemble_probe(&pieces) {
                    Some(bytes) => Some(Sample { file_info: file_info.clone(), bytes }),
                    None => None,
                }
            } else {
                None
            }
        },
    }
}

/// The reads of the probe on a file that holds `content`, where every read
/// goes well and delivers all that the file has for it: piece `i` is what the
/// file holds from `i * PIECE_SIZE` on, up to `PIECE_SIZE` bytes.
pub open spec fn head_pieces(content: Seq<u8>) -> Seq<Option<Seq<u8>>> {
    Seq::new(
        PIECES as nat,
        |piece: int|
            Some(
                content.subrange(
                    clip(piece_start(piece), content.len()),
                    clip(piece_start(piece + 1), content.len()),
                ),
            ),
    )
}

/// `position`, and the end of the content where `position` lies behind it.
pub open spec fn clip(position: int, length: nat) -> int {
    if position <= length {
        position
    } else {
        length as int
    }
}

/// The first `PROBE_SIZE` bytes of `content`, with zeros behind its end.
pub open spec fn padded_head(content: Seq<u8>) -> Seq<u8> {
    Seq::new(
        PROBE_SIZE as nat,
        |position: int|
            if position < content.len() {
                content[position]
            } else {
                0u8
            },
    )
}

/// The probe of a file covers its head and nothing else: it is the first
/// `PROBE_SIZE` bytes of the content, in their order, with zeros where the
/// file ends before. Two files that agree there have the same probe, whatever
/// follows in them.
pub proof fn lemma_probe_is_padded_head(content: Seq<u8>)
    ensures
        is_probe_read(head_pieces(content)),
        probe_of(head_pieces(content)) == Some(padded_head(content)),
        probe_bytes(head_pieces(content)).len() == PROBE_SIZE,
{
    let pieces = head_pieces(content);
    assert forall|piece: int| 0 <= piece < pieces.len() implies (#[trigger] pieces[piece]) is Some
        && pieces[piece]->0.len() <= PIECE_SIZE by {
        assert(pieces[piece] == Some(
            content.subrange(
                clip(piece_start(piece), content.len()),
                clip(piece_start(piece + 1), content.len()),
            ),
        ));
    }
    assert forall|position: int| 0 <= position < PROBE_SIZE implies probe_byte(pieces, position)
        == padded_head(content)[position] by {
        let piece = position / (PIECE_SIZE as int);
        let within = position % (PIECE_SIZE as int);
        assert(0 <= piece < PIECES);
        assert(position == piece * PIECE_SIZE + within);
        assert(pieces[piece] == Some(
            content.subrange(
                clip(piece_start(piece), content.len()),
                clip(piece_start(piece + 1), content.len()),
            ),
        ));
    }
    assert(probe_bytes(pieces) =~= padded_head(content));
}

/// Sampling an unchanged large file again gives the same sample: the sample
/// is a function of what the file holds in its head.
pub proof fn lemma_probe_is_repeatable(record: FileRecord, first: Seq<u8>, second: Seq<u8>)
    requires
        plan_for(record.size) == SamplePlan::HeadProbe,
        padded_head(first) == padded_head(second),
    ensures
        sample_of(record, SourceContent::Pieces(head_pieces(first))) == sample_of(
            record,
            SourceContent::Pieces(head_pieces(second)),
        ),
        sample_of(record, SourceContent::Pieces(head_pieces(first))) is Some,
        sample_of(record, SourceContent::Pieces(head_pieces(first)))->0.bytes.len() == PROBE_SIZE,
{
    lemma_probe_is_padded_head(first);
    lemma_probe_is_padded_head(second);
}

/// A failed read drops the file: where the seek or the read of one piece of
/// the probe failed, the file has no sample, whatever the other reads gave.
pub proof fn lemma_failed_read_drops_file(
    record: FileRecord,
    pieces: Seq<Option<Seq<u8>>>,
    failed: int,
)
    requires
        0 <= failed < pieces.len(),
        pieces[failed] is None,
    ensures
        sample_of(record, SourceContent::Pieces(pieces)) is None,
{
}

} // verus!
