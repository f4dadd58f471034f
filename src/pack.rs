//! Choosing the surviving sub-records and repacking them into a gap-free
//! container.
use vstd::prelude::*;
use crate::codec::{
    be32_bytes, pack_location, packed_location, push_be32, sectors_for, sectors_of,
    HEADER_SIZE, MAX_SECTOR_COUNT, SECTOR_OFFSET_LIMIT, SECTOR_SIZE, SLOT_COUNT,
};
use crate::scan::{copy_range, Candidate, CandidateView, ContainerError};

verus! {

/// A surviving sub-record: its slot, compression tag and compressed body.
#[derive(Debug)]
pub struct Entry {
    pub slot: usize,
    pub tag: u8,
    pub body: Vec<u8>,
}

/// The mathematical value of an [`Entry`].
pub struct EntryView {
    pub slot: nat,
    pub tag: u8,
    pub body: Seq<u8>,
}

impl View for Entry {
    type V = EntryView;

    open spec fn view(&self) -> EntryView {
        EntryView { slot: self.slot as nat, tag: self.tag, body: self.body@ }
    }
}

/// The values of a sequence of entries.
pub open spec fn entry_views(es: Seq<Entry>) -> Seq<EntryView> {
    es.map_values(|e: Entry| e@)
}

/// Whether a sub-record of age `age` is kept: strictly above the threshold.
pub fn is_kept(age: i64, threshold: i64) -> (r: bool)
    ensures
        r == (age > threshold),
{
    age > threshold
}

/// The age read for candidate `i`; `None` where it could not be read.
pub open spec fn age_of(ages: Seq<Option<i64>>, i: int) -> Option<i64> {
    if i < ages.len() {
        ages[i]
    } else {
        None
    }
}

/// The survivors among the first `i` candidates, in order, or the failure at
/// the first candidate whose age could not be read.
pub open spec fn selected(
    cands: Seq<CandidateView>,
    ages: Seq<Option<i64>>,
    threshold: i64,
    i: nat,
) -> Result<Seq<EntryView>, ContainerError>
    decreases i,
{
    if i == 0 {
        Ok(Seq::empty())
    } else {
        match selected(cands, ages, threshold, (i - 1) as nat) {
            Err(e) => Err(e),
            Ok(es) => match age_of(ages, i - 1) {
                None => Err(ContainerError::AgeUnreadable { slot: cands[i - 1].slot as usize }),
                Some(a) => if a > threshold {
                    Ok(es.push(EntryView { slot: cands[i - 1].slot, tag: cands[i - 1].tag, body: cands[i - 1].body }))
                } else {
                    Ok(es)
                },
            },
        }
    }
}

/// The survivors of all candidates.
pub open spec fn survivors(
    cands: Seq<CandidateView>,
    ages: Seq<Option<i64>>,
    threshold: i64,
) -> Result<Seq<EntryView>, ContainerError> {
    selected(cands, ages, threshold, cands.len())
}

proof fn lemma_selection_failure_persists(
    cands: Seq<CandidateView>,
    ages: Seq<Option<i64>>,
    threshold: i64,
    k: nat,
    m: nat,
)
    requires
        k <= m,
        selected(cands, ages, threshold, k) is Err,
    ensures
        selected(cands, ages, threshold, m) == selected(cands, ages, threshold, k),
    decreases m - k,
{
    if k < m {
        lemma_selection_failure_persists(cands, ages, threshold, k, (m - 1) as nat);
    }
}

/// Keeps, in order, the candidates whose age (`ages[i]` for candidate `i`) is
/// above `threshold`. A candidate without a readable age fails the container.
pub fn select_survivors(cands: &Vec<Candidate>, ages: &Vec<Option<i64>>, threshold: i64) -> (r: Result<Vec<Entry>, ContainerError>)
    ensures
        r matches Ok(es) ==> survivors(cands@.map_values(|c: Candidate| c@), ages@, threshold)
            == Ok::<_, ContainerError>(entry_views(es@)),
        r matches Err(e) ==> survivors(cands@.map_values(|c: Candidate| c@), ages@, threshold)
            == Err::<Seq<EntryView>, _>(e),
{
    let ghost cv = cands@.map_values(|c: Candidate| c@);
    let mut out: Vec<Entry> = Vec::new();
    let mut i: usize = 0;
    assert(entry_views(out@) =~= Seq::<EntryView>::empty());
    while i < cands.len()
        invariant
            i <= cands@.len(),
            cv == cands@.map_values(|c: Candidate| c@),
            selected(cv, ages@, threshold, i as nat) == Ok::<_, ContainerError>(entry_views(out@)),
        decreases cands@.len() - i,
    {
        let c = &cands[i];
        let age = if i < ages.len() { ages[i] } else { None };
        assert(age == age_of(ages@, i as int));
        match age {
            None => {
                proof {
                    lemma_selection_failure_persists(cv, ages@, threshold, (i + 1) as nat, cv.len());
                }
                return Err(ContainerError::AgeUnreadable { slot: c.slot });
            },
            Some(a) => {
                if is_kept(a, threshold) {
                    let body = copy_range(&c.body, 0, c.body.len());
                    assert(body@ =~= c.body@);
                    let ghost before = entry_views(out@);
                    let e = Entry { slot: c.slot, tag: c.tag, body };
                    out.push(e);
                    assert(entry_views(out@) =~= before.push(e@));
                }
            },
        }
        i = i + 1;
    }
    Ok(out)
}

/// The sector at which entry `i` is placed: the payloads start right after
/// the two header tables and follow each other without gaps.
pub open spec fn start_sector(es: Seq<EntryView>, i: nat) -> nat
    decreases i,
{
    if i == 0 {
        2
    } else {
        start_sector(es, (i - 1) as nat) + sectors_of(es[i - 1].body.len())
    }
}

/// Sectors given to entry `i`.
pub open spec fn entry_sectors(es: Seq<EntryView>, i: int) -> nat {
    sectors_of(es[i].body.len())
}

/// The new location entry of entry `i`.
pub open spec fn new_location(es: Seq<EntryView>, i: nat) -> nat {
    packed_location(start_sector(es, i), entry_sectors(es, i as int))
}

/// The location that `slot` holds once the first `i` entries are written; a
/// slot that no entry names holds zero.
pub open spec fn table_location(es: Seq<EntryView>, i: nat, slot: nat) -> nat
    decreases i,
{
    if i == 0 {
        0
    } else if es[i - 1].slot == slot {
        new_location(es, (i - 1) as nat)
    } else {
        table_location(es, (i - 1) as nat, slot)
    }
}

/// The stored form of an entry: big-endian length (body plus tag byte), tag,
/// body.
pub open spec fn record(e: EntryView) -> Seq<u8> {
    be32_bytes(e.body.len() + 1) + seq![e.tag] + e.body
}

/// `s` cut or padded with zeros to `n` bytes.
pub open spec fn fitted(s: Seq<u8>, n: nat) -> Seq<u8> {
    Seq::new(n, |j: int| if j < s.len() { s[j] } else { 0u8 })
}

/// The sectors of the first `i` entries, each record fitted to its sectors.
pub open spec fn payload_area(es: Seq<EntryView>, i: nat) -> Seq<u8>
    decreases i,
{
    if i == 0 {
        Seq::empty()
    } else {
        payload_area(es, (i - 1) as nat) + fitted(record(es[i - 1]), entry_sectors(es, i - 1) * 4096)
    }
}

/// The location table once all entries are written.
pub open spec fn location_table(es: Seq<EntryView>) -> Seq<u8> {
    Seq::new(4096, |b: int| be32_bytes(table_location(es, es.len(), (b / 4) as nat))[b % 4])
}

/// The repacked container: the location table, a zeroed timestamp table, then
/// the entries' sectors in order.
pub open spec fn packed_container(es: Seq<EntryView>) -> Seq<u8> {
    location_table(es) + Seq::new(4096, |b: int| 0u8) + payload_area(es, es.len())
}

/// Whether entries can be written as a container: every slot is in the grid,
/// every length fits four bytes, every sector count fits 8 bits, every offset
/// fits 24 bits, and the whole fits in memory.
pub open spec fn encodable(es: Seq<EntryView>) -> bool {
    &&& forall|i: int| 0 <= i < es.len() ==> {
        &&& #[trigger] es[i].slot < SLOT_COUNT
        &&& es[i].body.len() + 1 < 0x1_0000_0000
        &&& entry_sectors(es, i) <= MAX_SECTOR_COUNT
        &&& start_sector(es, i as nat) < SECTOR_OFFSET_LIMIT
    }
    &&& start_sector(es, es.len()) * 4096 <= usize::MAX
}

/// Whether `es` can be written as a container.
pub fn check_encodable(es: &Vec<Entry>) -> (r: bool)
    ensures
        r == encodable(entry_views(es@)),
{
    let ghost ev = entry_views(es@);
    let mut sector: u64 = 2;
    let mut i: usize = 0;
    while i < es.len()
        invariant
            i <= es@.len(),
            ev == entry_views(es@),
            sector as nat == start_sector(ev, i as nat),
            sector < SECTOR_OFFSET_LIMIT + 256,
            forall|j: int| 0 <= j < i ==> {
                &&& #[trigger] ev[j].slot < SLOT_COUNT
                &&& ev[j].body.len() + 1 < 0x1_0000_0000
                &&& entry_sectors(ev, j) <= MAX_SECTOR_COUNT
                &&& start_sector(ev, j as nat) < SECTOR_OFFSET_LIMIT
            },
        decreases es@.len() - i,
    {
        let e = &es[i];
        assert(ev[i as int] == e@);
        assert(ev[i as int].slot == e.slot);
        if e.slot >= SLOT_COUNT || e.body.len() >= 0xffff_ffff || sector >= SECTOR_OFFSET_LIMIT {
            return false;
        }
        let count = sectors_for(e.body.len());
        if count > MAX_SECTOR_COUNT {
            return false;
        }
        sector = sector + count;
        i = i + 1;
    }
    sector <= (usize::MAX / 4096) as u64
}

/// Entries placed later start no earlier.
pub proof fn lemma_start_monotone(es: Seq<EntryView>, i: nat, j: nat)
    requires
        i <= j,
    ensures
        start_sector(es, i) <= start_sector(es, j),
    decreases j - i,
{
    if i < j {
        lemma_start_monotone(es, i, (j - 1) as nat);
    }
}

/// The stored form of `e`.
fn record_bytes(e: &Entry) -> (r: Vec<u8>)
    requires
        e.body@.len() + 1 < 0x1_0000_0000,
    ensures
        r@ == record(e@),
{
    let mut r: Vec<u8> = Vec::new();
    push_be32(&mut r, (e.body.len() + 1) as u32);
    r.push(e.tag);
    let mut j: usize = 0;
    while j < e.body.len()
        invariant
            j <= e.body@.len(),
            r@ == be32_bytes(e.body@.len() + 1) + seq![e.tag] + e.body@.subrange(0, j as int),
        decreases e.body@.len() - j,
    {
        r.push(e.body[j]);
        j = j + 1;
        assert(r@ =~= be32_bytes(e.body@.len() + 1) + seq![e.tag] + e.body@.subrange(0, j as int));
    }
    assert(e.body@.subrange(0, j as int) =~= e.body@);
    r
}

/// Appends `s` cut or padded with zeros to `n` bytes.
fn push_fitted(out: &mut Vec<u8>, s: &Vec<u8>, n: usize)
    ensures
        final(out)@ == old(out)@ + fitted(s@, n as nat),
{
    let ghost start = out@;
    let mut j: usize = 0;
    while j < n
        invariant
            j <= n,
            out@ == start + fitted(s@, j as nat),
        decreases n - j,
    {
        if j < s.len() {
            out.push(s[j]);
        } else {
            out.push(0u8);
        }
        j = j + 1;
        assert(out@ =~= start + fitted(s@, j as nat));
    }
}

/// Overwrites the four bytes at `at` with the big-endian bytes of `v`.
fn write_be32_at(out: &mut Vec<u8>, at: usize, v: u32)
    requires
        at + 4 <= old(out)@.len(),
    ensures
        final(out)@.len() == old(out)@.len(),
        forall|b: int| at <= b < at + 4 ==> #[trigger] final(out)@[b] == be32_bytes(v as nat)[b - at],
        forall|b: int| 0 <= b < old(out)@.len() && !(at <= b < at + 4) ==> #[trigger] final(out)@[b] == old(out)@[b],
{
    let n = out.len();
    assert(at + 4 <= n);
    let mut bytes: Vec<u8> = Vec::new();
    push_be32(&mut bytes, v);
    out[at] = bytes[0];
    out[at + 1] = bytes[1];
    out[at + 2] = bytes[2];
    out[at + 3] = bytes[3];
}

/// Writes entries as a container: a location table that points each entry's
/// slot at its new place, a zeroed timestamp table, and the entries' records
/// in order, each in the fewest whole sectors that hold its body.
pub fn repack(es: &Vec<Entry>) -> (r: Vec<u8>)
    requires
        encodable(entry_views(es@)),
    ensures
        r@ == packed_container(entry_views(es@)),
{
    let ghost ev = entry_views(es@);
    let mut out: Vec<u8> = Vec::new();
    let mut k: usize = 0;
    while k < HEADER_SIZE
        invariant
            k <= HEADER_SIZE,
            out@ == Seq::new(k as nat, |b: int| 0u8),
        decreases HEADER_SIZE - k,
    {
        out.push(0u8);
        k = k + 1;
        assert(out@ =~= Seq::new(k as nat, |b: int| 0u8));
    }
    proof {
        lemma_start_monotone(ev, 0, ev.len());
    }
    let mut sector: u64 = 2;
    let mut i: usize = 0;
    while i < es.len()
        invariant
            i <= es@.len(),
            ev == entry_views(es@),
            encodable(ev),
            sector as nat == start_sector(ev, i as nat),
            out@.len() == start_sector(ev, i as nat) * 4096,
            out@.len() >= 8192,
            forall|b: int| 0 <= b < 4096 ==> #[trigger] out@[b] == be32_bytes(table_location(ev, i as nat, (b / 4) as nat))[b % 4],
            forall|b: int| 4096 <= b < 8192 ==> #[trigger] out@[b] == 0,
            out@.subrange(8192, out@.len() as int) == payload_area(ev, i as nat),
        decreases es@.len() - i,
    {
        let e = &es[i];
        assert(ev[i as int] == e@);
        assert(ev[i as int].slot < SLOT_COUNT);
        proof {
            lemma_start_monotone(ev, (i + 1) as nat, ev.len());
            lemma_start_monotone(ev, 0, (i + 1) as nat);
        }
        let count = sectors_for(e.body.len());
        let loc = pack_location(sector, count);
        let ghost before = out@;
        write_be32_at(&mut out, e.slot * 4, loc);
        assert forall|b: int| 0 <= b < 4096 implies #[trigger] out@[b] == be32_bytes(table_location(ev, (i + 1) as nat, (b / 4) as nat))[b % 4] by {
            if e.slot * 4 <= b < e.slot * 4 + 4 {
                assert(b / 4 == e.slot);
                assert(b % 4 == b - e.slot * 4);
            } else {
                assert(b / 4 != e.slot);
            }
        }
        assert(out@.subrange(8192, out@.len() as int) =~= before.subrange(8192, before.len() as int));
        let rec = record_bytes(e);
        let ghost mid = out@;
        push_fitted(&mut out, &rec, (count as usize) * SECTOR_SIZE);
        assert(out@.subrange(8192, out@.len() as int) =~= mid.subrange(8192, mid.len() as int) + fitted(rec@, (count * 4096) as nat));
        sector = sector + count;
        i = i + 1;
    }
    assert(out@ =~= packed_container(ev));
    out
}

/// What compacting a scanned container gives.
#[derive(Debug)]
pub enum Compacted {
    /// No sub-record survived: the container is dropped and nothing is written.
    FullyPruned,
    /// The bytes of the rewritten container.
    Written(Vec<u8>),
}

/// The rewritten container for scanned candidates and their ages: `None`
/// where nothing survives.
pub open spec fn compaction(
    cands: Seq<CandidateView>,
    ages: Seq<Option<i64>>,
    threshold: i64,
) -> Result<Option<Seq<u8>>, ContainerError> {
    match survivors(cands, ages, threshold) {
        Err(e) => Err(e),
        Ok(es) => if es.len() == 0 {
            Ok(None)
        } else if !encodable(es) {
            Err(ContainerError::TooLarge)
        } else {
            Ok(Some(packed_container(es)))
        },
    }
}

/// Filters scanned candidates by age (`ages[i]` for candidate `i`) and
/// repacks the survivors.
pub fn compact_scanned(cands: &Vec<Candidate>, ages: &Vec<Option<i64>>, threshold: i64) -> (r: Result<Compacted, ContainerError>)
    ensures
        compaction(cands@.map_values(|c: Candidate| c@), ages@, threshold) == match r {
            Ok(Compacted::FullyPruned) => Ok(None),
            Ok(Compacted::Written(b)) => Ok(Some(b@)),
            Err(e) => Err(e),
        },
{
    let es = select_survivors(cands, ages, threshold)?;
    if es.len() == 0 {
        return Ok(Compacted::FullyPruned);
    }
    if !check_encodable(&es) {
        return Err(ContainerError::TooLarge);
    }
    Ok(Compacted::Written(repack(&es)))
}

} // verus!
