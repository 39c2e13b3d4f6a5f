//! 7z archives that are embedded in other files.
//!
//! A self-extracting executable is a program followed by a 7z archive. The
//! archive is found by its signature and read as if it were a file of its own.

use crate::error::{message_around, Error, ErrorView};
use vstd::prelude::*;
use vstd::slice::slice_subrange;

verus! {

/// The bytes that a 7z archive starts with.
pub const SEVEN_Z_SIGNATURE: [u8; 6] = [0x37, 0x7A, 0xBC, 0xAF, 0x27, 0x1C];

/// The bytes that a 7z archive starts with.
pub open spec fn signature() -> Seq<u8> {
    SEVEN_Z_SIGNATURE@
}

/// Whether the signature stands at position `at`.
pub open spec fn signature_at(data: Seq<u8>, at: int) -> bool {
    &&& 0 <= at
    &&& at + signature().len() <= data.len()
    &&& forall|k: int|
        0 <= k < signature().len() ==> #[trigger] data[at + k] == signature()[k]
}

/// Whether the signature stands at position `at` and nowhere in front of it.
pub open spec fn first_signature(data: Seq<u8>, at: int) -> bool {
    signature_at(data, at) && forall|k: int| 0 <= k < at ==> !#[trigger] signature_at(data, k)
}

/// Whether the signature stands nowhere.
pub open spec fn no_signature(data: Seq<u8>) -> bool {
    forall|k: int| !#[trigger] signature_at(data, k)
}

/// Whether the signature stands in `data` at position `at`.
fn matches_at(data: &Vec<u8>, at: usize) -> (r: bool)
    requires
        at <= data@.len(),
    ensures
        r == signature_at(data@, at as int),
{
    let len: usize = data.len();
    if len - at < 6 {
        return false;
    }
    let mut i: usize = 0;
    while i < 6
        invariant
            i <= 6,
            len == data@.len(),
            at + 6 <= len,
            signature().len() == 6,
            forall|k: int| 0 <= k < i ==> #[trigger] data@[at + k] == signature()[k],
        decreases 6 - i,
    {
        if data[at + i] != SEVEN_Z_SIGNATURE[i] {
            assert(data@[at + i] != signature()[i as int]);
            return false;
        }
        i = i + 1;
    }
    true
}

/// A search for the signature in data that comes in pieces.
pub struct SignatureScanner {
    /// The end of the data so far, too short to hold a signature.
    carry: Vec<u8>,
    /// How much data came so far.
    consumed: u64,
    seen: Ghost<Seq<u8>>,
}

impl View for SignatureScanner {
    type V = Seq<u8>;

    /// The data that came so far.
    closed spec fn view(&self) -> Seq<u8> {
        self.seen@
    }
}

impl SignatureScanner {
    /// The data so far holds no signature, and its end is at hand.
    pub closed spec fn wf(&self) -> bool {
        &&& self.consumed == self.seen@.len()
        &&& self.carry@.len() == if self.seen@.len() < 5 {
            self.seen@.len()
        } else {
            5
        }
        &&& self.carry@ == self.seen@.skip(self.seen@.len() - self.carry@.len())
        &&& no_signature(self.seen@)
    }

    /// Starts a search.
    pub fn new() -> (r: SignatureScanner)
        ensures
            r.wf(),
            r@ == Seq::<u8>::empty(),
    {
        let r = SignatureScanner { carry: Vec::new(), consumed: 0, seen: Ghost(Seq::empty()) };
        assert(r.carry@ =~= r.seen@.skip(0));
        r
    }

    /// Continues the search with the next piece of data. It returns the position
    /// of the first signature in all of the data, once there is one.
    pub fn feed(&mut self, chunk: &[u8]) -> (r: Option<u64>)
        requires
            old(self).wf(),
            old(self)@.len() + chunk@.len() <= u64::MAX,
        ensures
            r matches Some(at) ==> first_signature(old(self)@ + chunk@, at as int) && *final(self)
                == *old(self),
            r is None ==> no_signature(old(self)@ + chunk@) && final(self).wf() && final(self)@
                == old(self)@ + chunk@,
    {
        let ghost seen = self.seen@;
        let ghost all = seen + chunk@;
        let mut candidate: Vec<u8> = Vec::new();
        candidate.extend_from_slice(self.carry.as_slice());
        assert(candidate@ =~= self.carry@);
        candidate.extend_from_slice(chunk);
        assert(candidate@ =~= self.carry@ + chunk@);
        let ghost base = seen.len() - self.carry@.len();
        assert(candidate@ =~= all.skip(base));
        let len: usize = candidate.len();
        let mut i: usize = 0;
        while i < len
            invariant
                i <= len == candidate@.len(),
                candidate@ == all.skip(base),
                0 <= base <= all.len(),
                all == seen + chunk@,
                seen == old(self)@,
                *self == *old(self),
                old(self).wf(),
                base == seen.len() - self.carry@.len(),
                all.len() <= u64::MAX,
                self.consumed == seen.len(),
                forall|k: int| 0 <= k < i ==> !#[trigger] signature_at(candidate@, k),
            decreases len - i,
        {
            if matches_at(&candidate, i) {
                proof {
                    lemma_signature_shift(all, base, i as int);
                    assert forall|k: int| 0 <= k < base + i implies !#[trigger] signature_at(
                        all,
                        k,
                    ) by {
                        lemma_signature_behind(seen, chunk@, k);
                        if k >= base {
                            lemma_signature_shift(all, base, k - base);
                        }
                    }
                }
                return Some(self.consumed - self.carry.len() as u64 + i as u64);
            }
            i = i + 1;
        }
        proof {
            assert forall|k: int| !#[trigger] signature_at(all, k) by {
                lemma_signature_behind(seen, chunk@, k);
                if k >= base {
                    lemma_signature_shift(all, base, k - base);
                }
            }
        }
        let keep: usize = if len < 5 {
            len
        } else {
            5
        };
        let mut carry: Vec<u8> = Vec::new();
        carry.extend_from_slice(slice_subrange(candidate.as_slice(), len - keep, len));
        assert(carry@ =~= candidate@.subrange(len - keep, len as int));
        assert(carry@ =~= all.skip(all.len() - keep));
        self.carry = carry;
        self.consumed = self.consumed + chunk.len() as u64;
        self.seen = Ghost(all);
        None
    }
}

/// A signature in the end of the data is one in the data.
proof fn lemma_signature_shift(all: Seq<u8>, base: int, at: int)
    requires
        0 <= base <= all.len(),
        0 <= at,
    ensures
        signature_at(all.skip(base), at) == signature_at(all, base + at),
{
    if signature_at(all.skip(base), at) {
        assert forall|k: int| 0 <= k < signature().len() implies #[trigger] all[base + at + k]
            == signature()[k] by {
            assert(all.skip(base)[at + k] == all[base + at + k]);
        }
    }
    if signature_at(all, base + at) {
        assert forall|k: int| 0 <= k < signature().len() implies #[trigger] all.skip(base)[at + k]
            == signature()[k] by {
            assert(all[base + at + k] == signature()[k]);
        }
    }
}

/// A signature that is completed by new data starts in the last bytes of the
/// old.
proof fn lemma_signature_behind(seen: Seq<u8>, chunk: Seq<u8>, at: int)
    requires
        no_signature(seen),
    ensures
        signature_at(seen + chunk, at) ==> at + 5 >= seen.len(),
{
    if signature_at(seen + chunk, at) && at + signature().len() <= seen.len() {
        assert forall|k: int| 0 <= k < signature().len() implies #[trigger] seen[at + k]
            == signature()[k] by {
            assert((seen + chunk)[at + k] == signature()[k]);
        }
        assert(signature_at(seen, at));
    }
}

/// How much data is searched at a time.
const CHUNK: usize = 65536;

/// Finds the first signature in data that is at hand.
pub fn find_7z_signature(data: &[u8]) -> (r: Option<u64>)
    ensures
        r matches Some(at) ==> first_signature(data@, at as int),
        r is None ==> no_signature(data@),
{
    let mut scanner = SignatureScanner::new();
    let len: usize = data.len();
    let mut from: usize = 0;
    assert(data@.take(0) =~= Seq::<u8>::empty());
    proof {
        assert(no_signature(Seq::<u8>::empty()));
    }
    while from < len
        invariant
            from <= len == data@.len(),
            len <= usize::MAX <= u64::MAX,
            scanner.wf(),
            scanner@ == data@.take(from as int),
            no_signature(data@.take(from as int)),
        decreases len - from,
    {
        let to: usize = if len - from < CHUNK {
            len
        } else {
            from + CHUNK
        };
        let chunk = slice_subrange(data, from, to);
        assert(data@.take(from as int) + chunk@ =~= data@.take(to as int));
        if let Some(at) = scanner.feed(chunk) {
            proof {
                assert(data@ =~= data@.take(to as int) + data@.skip(to as int));
                more_data_keeps_first(data@.take(to as int), data@.skip(to as int), at as int);
            }
            return Some(at);
        }
        from = to;
    }
    assert(data@.take(from as int) =~= data@);
    None
}

/// Data behind the first signature does not change where it is.
pub proof fn more_data_keeps_first(data: Seq<u8>, more: Seq<u8>, at: int)
    requires
        first_signature(data, at),
    ensures
        first_signature(data + more, at),
{
    let all = data + more;
    assert forall|k: int| 0 <= k < signature().len() implies #[trigger] all[at + k]
        == signature()[k] by {
        assert(data[at + k] == signature()[k]);
    }
    assert forall|k: int| 0 <= k < at implies !#[trigger] signature_at(all, k) by {
        if signature_at(all, k) {
            assert forall|j: int| 0 <= j < signature().len() implies #[trigger] data[k + j]
                == signature()[j] by {
                assert(all[k + j] == signature()[j]);
            }
            assert(signature_at(data, k));
        }
    }
}

/// The first signature is at one position, so how the data was cut into pieces
/// does not matter.
pub proof fn first_signature_is_unique(data: Seq<u8>, a: int, b: int)
    requires
        first_signature(data, a),
        first_signature(data, b),
    ensures
        a == b,
{
    if a < b {
        assert(!signature_at(data, a));
    } else if b < a {
        assert(!signature_at(data, b));
    }
}

/// A plain archive is found at its start.
pub proof fn plain_archive_is_found_at_once(data: Seq<u8>)
    requires
        signature().is_prefix_of(data),
    ensures
        first_signature(data, 0),
{
    assert forall|k: int| 0 <= k < signature().len() implies #[trigger] data[0 + k]
        == signature()[k] by {
        assert(data.subrange(0, signature().len() as int)[k] == signature()[k]);
    }
}

/// Where an archive starts in the file `archive`, or the error where it is not found.
pub open spec fn offset_of(found: Option<u64>, archive: Seq<char>) -> Result<u64, ErrorView> {
    match found {
        Some(at) => Ok(at),
        None => Err(ErrorView::Custom("7z signature not found in '"@ + archive + "'"@)),
    }
}

/// Judges a search for the signature in the file `archive`.
pub fn signature_offset(found: Option<u64>, archive: &str) -> (r: Result<u64, Error>)
    ensures
        offset_of(found, archive@) == match r {
            Ok(at) => Ok(at),
            Err(error) => Err(error@),
        },
{
    match found {
        Some(at) => Ok(at),
        None => Err(message_around("7z signature not found in '", archive, "'")),
    }
}

/// A position to seek to.
#[derive(Clone, Copy, Debug, PartialEq, Eq, Structural)]
pub enum SeekTarget {
    /// From the start.
    Start(u64),
    /// From the end.
    End(i64),
    /// From where the reader is.
    Current(i64),
}

/// The positions of an archive that starts inside a file.
#[derive(Clone, Copy, Debug, PartialEq, Eq, Structural)]
pub struct OffsetReader {
    /// Where the archive starts in the file.
    pub offset: u64,
}

impl OffsetReader {
    /// Reads the archive that starts at `offset`.
    pub fn new(offset: u64) -> (r: OffsetReader)
        ensures
            r.offset == offset,
    {
        OffsetReader { offset }
    }

    /// Where the file is positioned before the archive is read.
    pub fn start(&self) -> (r: SeekTarget)
        ensures
            r == SeekTarget::Start(self.offset),
    {
        SeekTarget::Start(self.offset)
    }

    /// Where to seek in the file for a position in the archive. Only a position
    /// from the start depends on where the archive starts.
    pub open spec fn file_target_of(self, position: SeekTarget) -> SeekTarget {
        match position {
            SeekTarget::Start(at) => SeekTarget::Start((self.offset + at) as u64),
            other => other,
        }
    }

    /// Returns where to seek in the file for a position in the archive.
    pub fn file_target(&self, position: SeekTarget) -> (r: SeekTarget)
        requires
            position matches SeekTarget::Start(at) ==> self.offset + at <= u64::MAX,
        ensures
            r == self.file_target_of(position),
    {
        match position {
            SeekTarget::Start(at) => SeekTarget::Start(self.offset + at),
            other => other,
        }
    }

    /// The position in the archive where the file is at `absolute`; there is
    /// none in front of the archive.
    pub open spec fn archive_position_of(self, absolute: u64) -> Option<u64> {
        if absolute >= self.offset {
            Some((absolute - self.offset) as u64)
        } else {
            None
        }
    }

    /// Returns the position in the archive where the file is at `absolute`.
    pub fn archive_position(&self, absolute: u64) -> (r: Result<u64, Error>)
        ensures
            match self.archive_position_of(absolute) {
                Some(at) => r == Ok::<u64, Error>(at),
                None => r matches Err(error) && error@ == ErrorView::Custom(
                    "attempted to seek before embedded 7z payload"@,
                ),
            },
    {
        if absolute >= self.offset {
            Ok(absolute - self.offset)
        } else {
            Err(Error::Custom("attempted to seek before embedded 7z payload".to_owned()))
        }
    }
}

} // verus!
