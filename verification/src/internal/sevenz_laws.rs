//! What holds of archives that are embedded in other files.

use crate::error::ErrorView;
use crate::internal::sevenz::{
    first_signature, offset_of, signature, signature_at, OffsetReader, SeekTarget,
};
use vstd::prelude::*;

verus! {

/// What a reader is asked for.
pub enum ReaderStep {
    /// The next bytes, at most this many.
    Read(nat),
    /// Another position.
    Seek(SeekTarget),
}

/// What a reader answers.
pub enum ReaderReply {
    Bytes(Seq<u8>),
    /// The position, counted from the start of what is read.
    Position(int),
    /// There is no such position.
    Refused,
}

/// The position that a seek asks for in data of length `len`, where the reader
/// is at `at`.
pub open spec fn asked_position(len: int, at: int, target: SeekTarget) -> int {
    match target {
        SeekTarget::Start(to) => to as int,
        SeekTarget::End(by) => len + by,
        SeekTarget::Current(by) => at + by,
    }
}

/// The position that a seek leads to: positions in front of the data, and those
/// that no number can tell, do not exist.
pub open spec fn sought(len: int, at: int, target: SeekTarget) -> Option<int> {
    let to = asked_position(len, at, target);
    if 0 <= to <= u64::MAX {
        Some(to)
    } else {
        None
    }
}

/// The bytes that a read at `at` gives.
pub open spec fn bytes_at(data: Seq<u8>, at: int, count: nat) -> Seq<u8> {
    if at >= data.len() {
        Seq::empty()
    } else if at + count >= data.len() {
        data.skip(at)
    } else {
        data.subrange(at, at + count)
    }
}

/// The answers of a reader of `data` that is at `at`, up to the first refusal.
pub open spec fn plain_replies(data: Seq<u8>, at: int, steps: Seq<ReaderStep>) -> Seq<ReaderReply>
    decreases steps.len(),
{
    if steps.len() == 0 {
        Seq::empty()
    } else {
        match steps[0] {
            ReaderStep::Read(count) => {
                let bytes = bytes_at(data, at, count);
                seq![ReaderReply::Bytes(bytes)] + plain_replies(
                    data,
                    at + bytes.len(),
                    steps.skip(1),
                )
            },
            ReaderStep::Seek(target) => match sought(data.len() as int, at, target) {
                Some(to) => seq![ReaderReply::Position(to)] + plain_replies(
                    data,
                    to,
                    steps.skip(1),
                ),
                None => seq![ReaderReply::Refused],
            },
        }
    }
}

/// The answers of a reader of an archive in `file`, where the file is at `at`,
/// up to the first refusal: reads go to the file, and seeks are mapped there and
/// back.
pub open spec fn embedded_replies(
    reader: OffsetReader,
    file: Seq<u8>,
    at: int,
    steps: Seq<ReaderStep>,
) -> Seq<ReaderReply>
    decreases steps.len(),
{
    if steps.len() == 0 {
        Seq::empty()
    } else {
        match steps[0] {
            ReaderStep::Read(count) => {
                let bytes = bytes_at(file, at, count);
                seq![ReaderReply::Bytes(bytes)] + embedded_replies(
                    reader,
                    file,
                    at + bytes.len(),
                    steps.skip(1),
                )
            },
            ReaderStep::Seek(position) => match sought(
                file.len() as int,
                at,
                reader.file_target_of(position),
            ) {
                Some(absolute) => match reader.archive_position_of(absolute as u64) {
                    Some(to) => seq![ReaderReply::Position(to as int)] + embedded_replies(
                        reader,
                        file,
                        absolute,
                        steps.skip(1),
                    ),
                    None => seq![ReaderReply::Refused],
                },
                None => seq![ReaderReply::Refused],
            },
        }
    }
}

/// Whether every position that a reader of `data` is asked for can still be told
/// when the data starts at `offset` in a file.
pub open spec fn fits(offset: int, data: Seq<u8>, at: int, steps: Seq<ReaderStep>) -> bool
    decreases steps.len(),
{
    steps.len() > 0 ==> match steps[0] {
        ReaderStep::Read(count) => fits(
            offset,
            data,
            at + bytes_at(data, at, count).len(),
            steps.skip(1),
        ),
        ReaderStep::Seek(target) => {
            let to = asked_position(data.len() as int, at, target);
            offset + to <= u64::MAX && (to >= 0 ==> fits(offset, data, to, steps.skip(1)))
        },
    }
}

/// A single seek in an archive inside a file answers as a seek in the archive
/// alone, from the start, the end and the current position alike, and refuses
/// what lies in front of the archive.
pub proof fn seek_maps_positions(reader: OffsetReader, len: int, at: int, position: SeekTarget)
    requires
        0 <= len,
        0 <= at,
        reader.offset + asked_position(len, at, position) <= u64::MAX,
    ensures
        ({
            let in_file = sought(
                reader.offset + len,
                reader.offset + at,
                reader.file_target_of(position),
            );
            match sought(len, at, position) {
                Some(to) => in_file == Some(reader.offset + to) && reader.archive_position_of(
                    (reader.offset + to) as u64,
                ) == Some(to as u64),
                None => in_file matches Some(absolute) ==> reader.archive_position_of(
                    absolute as u64,
                ) is None,
            }
        }),
{
}

/// A read in an archive inside a file gives what a read in the archive gives.
proof fn lemma_same_bytes(stub: Seq<u8>, payload: Seq<u8>, at: int, count: nat)
    requires
        0 <= at,
    ensures
        bytes_at(stub + payload, stub.len() + at, count) == bytes_at(payload, at, count),
{
    assert(bytes_at(stub + payload, stub.len() + at, count) =~= bytes_at(payload, at, count));
}

/// A reader of an archive behind other data cannot be told from a reader of the
/// archive alone: any reads and seeks give the same answers.
pub proof fn embedded_reader_agrees(
    stub: Seq<u8>,
    payload: Seq<u8>,
    at: int,
    steps: Seq<ReaderStep>,
)
    requires
        stub.len() <= u64::MAX,
        0 <= at,
        fits(stub.len() as int, payload, at, steps),
    ensures
        embedded_replies(
            OffsetReader { offset: stub.len() as u64 },
            stub + payload,
            stub.len() + at,
            steps,
        ) == plain_replies(payload, at, steps),
    decreases steps.len(),
{
    let reader = OffsetReader { offset: stub.len() as u64 };
    let len = payload.len() as int;
    if steps.len() > 0 {
        match steps[0] {
            ReaderStep::Read(count) => {
                lemma_same_bytes(stub, payload, at, count);
                let next = at + bytes_at(payload, at, count).len();
                embedded_reader_agrees(stub, payload, next, steps.skip(1));
            },
            ReaderStep::Seek(position) => {
                seek_maps_positions(reader, len, at, position);
                if let Some(to) = sought(len, at, position) {
                    embedded_reader_agrees(stub, payload, to, steps.skip(1));
                }
            },
        }
    }
}

/// What fits behind other data fits without it.
proof fn lemma_fits_alone(offset: int, data: Seq<u8>, at: int, steps: Seq<ReaderStep>)
    requires
        0 <= offset,
        fits(offset, data, at, steps),
    ensures
        fits(0, data, at, steps),
    decreases steps.len(),
{
    if steps.len() > 0 {
        match steps[0] {
            ReaderStep::Read(count) => {
                lemma_fits_alone(
                    offset,
                    data,
                    at + bytes_at(data, at, count).len(),
                    steps.skip(1),
                );
            },
            ReaderStep::Seek(target) => {
                let to = asked_position(data.len() as int, at, target);
                if to >= 0 {
                    lemma_fits_alone(offset, data, to, steps.skip(1));
                }
            },
        }
    }
}

/// A self-extracting executable is read as the plain archive in it. Where the
/// first signature of the executable is that of the archive, the archive alone
/// is found at its start, and from where the search leads to, both give the same
/// answers to any reads and seeks.
pub proof fn embedded_archive_reads_as_plain(
    stub: Seq<u8>,
    payload: Seq<u8>,
    steps: Seq<ReaderStep>,
)
    requires
        stub.len() <= u64::MAX,
        first_signature(stub + payload, stub.len() as int),
        fits(stub.len() as int, payload, 0, steps),
    ensures
        first_signature(payload, 0),
        embedded_replies(
            OffsetReader { offset: stub.len() as u64 },
            stub + payload,
            stub.len() as int,
            steps,
        ) == embedded_replies(OffsetReader { offset: 0 }, payload, 0, steps),
{
    let file = stub + payload;
    assert forall|k: int| 0 <= k < signature().len() implies #[trigger] payload[0 + k]
        == signature()[k] by {
        assert(file[stub.len() + k] == signature()[k]);
    }
    assert(signature_at(payload, 0));
    let none = Seq::<u8>::empty();
    embedded_reader_agrees(stub, payload, 0, steps);
    lemma_fits_alone(stub.len() as int, payload, 0, steps);
    assert(none + payload =~= payload);
    embedded_reader_agrees(none, payload, 0, steps);
}

/// The bytes that a 7z archive starts with: the two letters of its name and four more.
/// They stand at a position exactly where the six bytes from there on are these.
pub proof fn signature_is_that_of_7z(data: Seq<u8>, at: int)
    ensures
        signature() == seq![0x37u8, 0x7Au8, 0xBCu8, 0xAFu8, 0x27u8, 0x1Cu8],
        signature_at(data, at) <==> 0 <= at && at + 6 <= data.len() && data.subrange(at, at + 6)
            == seq![0x37u8, 0x7Au8, 0xBCu8, 0xAFu8, 0x27u8, 0x1Cu8],
{
    let sign = seq![0x37u8, 0x7Au8, 0xBCu8, 0xAFu8, 0x27u8, 0x1Cu8];
    assert(signature() =~= sign);
    if signature_at(data, at) {
        assert forall|k: int| 0 <= k < 6 implies data.subrange(at, at + 6)[k] == sign[k] by {
            assert(data[at + k] == signature()[k]);
        }
        assert(data.subrange(at, at + 6) =~= sign);
    } else if 0 <= at && at + 6 <= data.len() && data.subrange(at, at + 6) == sign {
        assert forall|k: int| 0 <= k < signature().len() implies #[trigger] data[at + k]
            == signature()[k] by {
            assert(data.subrange(at, at + 6)[k] == data[at + k]);
        }
    }
}

/// An archive starts where its signature was found. Where it was not found, the error
/// names the file.
pub proof fn archives_start_at_their_signature(found: Option<u64>, archive: Seq<char>)
    ensures
        found matches Some(at) ==> offset_of(found, archive) == Ok::<u64, ErrorView>(at),
        found is None ==> offset_of(found, archive) == Err::<u64, ErrorView>(
            ErrorView::Custom("7z signature not found in '"@ + archive + "'"@),
        ),
{
}

} // verus!
