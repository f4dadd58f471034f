//! Reading a container: the location table, each occupied slot's stored
//! sub-record, and its decompressed payload.
use vstd::prelude::*;
use crate::codec::{be32, location_offset, read_be32, HEADER_SIZE, SECTOR_SIZE, SLOT_COUNT};
use crate::decompress::{decompress, decompressed, DecompressError};

verus! {

/// Why a whole container is left as it is.
#[derive(Clone, Copy, Debug, PartialEq, Eq, Structural)]
pub enum ContainerError {
    /// The file is shorter than the two header tables.
    HeaderMissing,
    /// A stored sub-record declares a length of zero.
    BadLength { slot: usize },
    /// A stored sub-record reaches past the end of the file.
    PayloadOutOfBounds { slot: usize },
    /// The age field of a decompressed payload could not be read.
    AgeUnreadable { slot: usize },
    /// The survivors do not fit the location encoding (more than 255 sectors
    /// for one entry, or an offset of 2^24 sectors or more) or memory.
    TooLarge,
}

/// A sub-record dropped from a container that is otherwise still processed.
#[derive(Clone, Copy, Debug, PartialEq, Eq, Structural)]
pub enum Skipped {
    /// Its compression tag names no supported scheme.
    UnknownScheme { slot: usize, tag: u8 },
    /// Its body does not decompress under the scheme its tag names.
    Undecodable { slot: usize },
}

/// A stored sub-record that decompressed: its slot, compression tag,
/// compressed body as stored, and decompressed payload.
#[derive(Debug)]
pub struct Candidate {
    pub slot: usize,
    pub tag: u8,
    pub body: Vec<u8>,
    pub payload: Vec<u8>,
}

/// The mathematical value of a [`Candidate`].
pub struct CandidateView {
    pub slot: nat,
    pub tag: u8,
    pub body: Seq<u8>,
    pub payload: Seq<u8>,
}

impl View for Candidate {
    type V = CandidateView;

    open spec fn view(&self) -> CandidateView {
        CandidateView { slot: self.slot as nat, tag: self.tag, body: self.body@, payload: self.payload@ }
    }
}

/// The result of reading every occupied slot of a container.
#[derive(Debug)]
pub struct Scan {
    pub candidates: Vec<Candidate>,
    pub skipped: Vec<Skipped>,
}

/// What reading one slot gives.
pub enum SlotRead {
    Empty,
    Found(CandidateView),
    Skip(Skipped),
    Fail(ContainerError),
}

/// The slot visited at step `k`: the grid is walked with x in the outer loop
/// and z in the inner one, and slot `(x, z)` is `x + 32 * z`.
pub open spec fn visit_slot(k: int) -> int {
    k / 32 + (k % 32) * 32
}

/// The location entry of `slot` in a container's bytes.
pub open spec fn location_at(input: Seq<u8>, slot: int) -> nat {
    be32(input, 4 * slot)
}

/// What a stored sub-record of `slot` gives once its body has gone through
/// decompression with result `decoded`.
pub open spec fn decoded_slot(slot: nat, tag: u8, body: Seq<u8>, decoded: Result<Seq<u8>, DecompressError>) -> SlotRead {
    match decoded {
        Ok(payload) => SlotRead::Found(CandidateView { slot, tag, body, payload }),
        Err(DecompressError::UnsupportedScheme { tag }) => SlotRead::Skip(
            Skipped::UnknownScheme { slot: slot as usize, tag },
        ),
        Err(DecompressError::Corrupt) => SlotRead::Skip(Skipped::Undecodable { slot: slot as usize }),
    }
}

/// What reading `slot` of a container gives.
pub open spec fn slot_read(input: Seq<u8>, slot: nat) -> SlotRead {
    let loc = location_at(input, slot as int);
    let start: int = (location_offset(loc) * 4096) as int;
    if loc == 0 {
        SlotRead::Empty
    } else if start + 5 > input.len() {
        SlotRead::Fail(ContainerError::PayloadOutOfBounds { slot: slot as usize })
    } else if be32(input, start) == 0 {
        SlotRead::Fail(ContainerError::BadLength { slot: slot as usize })
    } else if start + 4 + be32(input, start) > input.len() {
        SlotRead::Fail(ContainerError::PayloadOutOfBounds { slot: slot as usize })
    } else {
        let tag = input[start + 4];
        let body = input.subrange(start + 5, start + 4 + be32(input, start));
        decoded_slot(slot, tag, body, decompressed(tag, body))
    }
}

/// The candidates and skipped sub-records of the first `k` visited slots, or
/// the first failure among them.
pub open spec fn scanned(input: Seq<u8>, k: nat) -> Result<(Seq<CandidateView>, Seq<Skipped>), ContainerError>
    decreases k,
{
    if k == 0 {
        Ok((Seq::empty(), Seq::empty()))
    } else {
        match scanned(input, (k - 1) as nat) {
            Err(e) => Err(e),
            Ok((c, s)) => match slot_read(input, visit_slot(k - 1) as nat) {
                SlotRead::Empty => Ok((c, s)),
                SlotRead::Found(cv) => Ok((c.push(cv), s)),
                SlotRead::Skip(x) => Ok((c, s.push(x))),
                SlotRead::Fail(e) => Err(e),
            },
        }
    }
}

/// What scanning a whole container gives.
pub open spec fn container_scan(input: Seq<u8>) -> Result<(Seq<CandidateView>, Seq<Skipped>), ContainerError> {
    if input.len() < HEADER_SIZE {
        Err(ContainerError::HeaderMissing)
    } else {
        scanned(input, SLOT_COUNT as nat)
    }
}

/// Once a scan has failed, scanning further slots keeps that failure.
proof fn lemma_failure_persists(input: Seq<u8>, k: nat, m: nat)
    requires
        k <= m,
        scanned(input, k) is Err,
    ensures
        scanned(input, m) == scanned(input, k),
    decreases m - k,
{
    if k < m {
        lemma_failure_persists(input, k, (m - 1) as nat);
    }
}

/// Copies `input[from..to]`.
pub(crate) fn copy_range(input: &Vec<u8>, from: usize, to: usize) -> (r: Vec<u8>)
    requires
        from <= to <= input@.len(),
    ensures
        r@ == input@.subrange(from as int, to as int),
{
    let mut r: Vec<u8> = Vec::new();
    let mut i: usize = from;
    while i < to
        invariant
            from <= i <= to <= input@.len(),
            r@ == input@.subrange(from as int, i as int),
        decreases to - i,
    {
        r.push(input[i]);
        i = i + 1;
        assert(r@ =~= input@.subrange(from as int, i as int));
    }
    r
}

/// Reads the sub-record stored for `slot`, and decompresses it.
pub fn read_slot(input: &Vec<u8>, slot: usize) -> (r: SlotReadResult)
    requires
        HEADER_SIZE <= input@.len(),
        slot < SLOT_COUNT,
    ensures
        r@ == slot_read(input@, slot as nat),
{
    let len = input.len();
    let loc = read_be32(input, slot * 4);
    if loc == 0 {
        return SlotReadResult::Empty;
    }
    let start: u64 = (loc / 256) as u64 * (SECTOR_SIZE as u64);
    if start + 5 > len as u64 {
        return SlotReadResult::Fail(ContainerError::PayloadOutOfBounds { slot });
    }
    let start = start as usize;
    let declared = read_be32(input, start);
    if declared == 0 {
        return SlotReadResult::Fail(ContainerError::BadLength { slot });
    }
    if start as u64 + 4 + declared as u64 > len as u64 {
        return SlotReadResult::Fail(ContainerError::PayloadOutOfBounds { slot });
    }
    let tag = input[start + 4];
    let body = copy_range(input, start + 5, start + 4 + declared as usize);
    let decoded = decompress(tag, &body);
    classify_decoded(slot, tag, body, decoded)
}

/// Turns the decompression result of a stored sub-record into what its slot
/// gives: a candidate, or a skipped sub-record.
pub fn classify_decoded(slot: usize, tag: u8, body: Vec<u8>, decoded: Result<Vec<u8>, DecompressError>) -> (r: SlotReadResult)
    ensures
        r@ == decoded_slot(slot as nat, tag, body@, match decoded {
            Ok(p) => Ok(p@),
            Err(e) => Err(e),
        }),
{
    match decoded {
        Ok(payload) => SlotReadResult::Found(Candidate { slot, tag, body, payload }),
        Err(DecompressError::UnsupportedScheme { tag }) => SlotReadResult::Skip(
            Skipped::UnknownScheme { slot, tag },
        ),
        Err(DecompressError::Corrupt) => SlotReadResult::Skip(Skipped::Undecodable { slot }),
    }
}

/// What [`read_slot`] returns.
#[derive(Debug)]
pub enum SlotReadResult {
    Empty,
    Found(Candidate),
    Skip(Skipped),
    Fail(ContainerError),
}

impl View for SlotReadResult {
    type V = SlotRead;

    open spec fn view(&self) -> SlotRead {
        match self {
            SlotReadResult::Empty => SlotRead::Empty,
            SlotReadResult::Found(c) => SlotRead::Found(c@),
            SlotReadResult::Skip(s) => SlotRead::Skip(*s),
            SlotReadResult::Fail(e) => SlotRead::Fail(*e),
        }
    }
}

/// Reads every occupied slot of a container in grid order (x outer, z
/// inner), decompressing each stored sub-record. A sub-record with an unknown
/// scheme or a corrupt body is listed as skipped; a structural fault ends the
/// scan with an error.
pub fn scan_container(input: &Vec<u8>) -> (r: Result<Scan, ContainerError>)
    ensures
        r matches Ok(s) ==> container_scan(input@) == Ok::<_, ContainerError>(
            (s.candidates@.map_values(|c: Candidate| c@), s.skipped@),
        ),
        r matches Err(e) ==> container_scan(input@) == Err::<(Seq<CandidateView>, Seq<Skipped>), _>(e),
{
    if input.len() < HEADER_SIZE {
        return Err(ContainerError::HeaderMissing);
    }
    let mut candidates: Vec<Candidate> = Vec::new();
    let mut skipped: Vec<Skipped> = Vec::new();
    let mut k: usize = 0;
    assert(candidates@.map_values(|c: Candidate| c@) =~= Seq::<CandidateView>::empty());
    while k < SLOT_COUNT
        invariant
            HEADER_SIZE <= input@.len(),
            k <= SLOT_COUNT,
            scanned(input@, k as nat) == Ok::<_, ContainerError>(
                (candidates@.map_values(|c: Candidate| c@), skipped@),
            ),
        decreases SLOT_COUNT - k,
    {
        let slot = k / 32 + (k % 32) * 32;
        let read = read_slot(input, slot);
        proof {
            assert(visit_slot(k as int) == slot);
        }
        match read {
            SlotReadResult::Empty => {},
            SlotReadResult::Found(c) => {
                let ghost before = candidates@.map_values(|c: Candidate| c@);
                let ghost cv = c@;
                candidates.push(c);
                assert(candidates@.map_values(|c: Candidate| c@) =~= before.push(cv));
            },
            SlotReadResult::Skip(s) => {
                skipped.push(s);
            },
            SlotReadResult::Fail(e) => {
                proof {
                    lemma_failure_persists(input@, (k + 1) as nat, SLOT_COUNT as nat);
                }
                return Err(e);
            },
        }
        k = k + 1;
    }
    Ok(Scan { candidates, skipped })
}

} // verus!
