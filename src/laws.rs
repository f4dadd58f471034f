//! What holds of a rewritten container: its layout, and that reading it back
//! gives the surviving sub-records again.
use vstd::prelude::*;
use vstd::arithmetic::div_mod::lemma_fundamental_div_mod_converse;
use crate::codec::{be32, be32_bytes, lemma_be32_round_trip, location_count, location_offset, packed_location, SLOT_COUNT};
use crate::decompress::decompressed;
use crate::pack::{
    age_of, compaction, selected, encodable, entry_sectors, fitted, lemma_start_monotone, location_table,
    new_location, packed_container, payload_area, record, start_sector, survivors,
    table_location, EntryView,
};
use crate::scan::{container_scan, location_at, scanned, slot_read, visit_slot, CandidateView, SlotRead};

verus! {

/// The step at which `slot` is visited by a scan.
pub open spec fn visit_rank(slot: int) -> int {
    (slot % 32) * 32 + slot / 32
}

proof fn lemma_visit_rank(k: int, slot: int)
    ensures
        0 <= k < 1024 ==> 0 <= visit_slot(k) < 1024 && visit_rank(visit_slot(k)) == k,
        0 <= slot < 1024 ==> 0 <= visit_rank(slot) < 1024 && visit_slot(visit_rank(slot)) == slot,
{
    if 0 <= k < 1024 {
        let a = k / 32;
        let b = k % 32;
        lemma_fundamental_div_mod_converse(visit_slot(k), 32, b, a);
    }
    if 0 <= slot < 1024 {
        let a = slot / 32;
        let b = slot % 32;
        lemma_fundamental_div_mod_converse(visit_rank(slot), 32, b, a);
    }
}

/// A location entry written for entry `i` fits four bytes.
proof fn lemma_new_location_bounds(es: Seq<EntryView>, i: int)
    requires
        encodable(es),
        0 <= i < es.len(),
    ensures
        new_location(es, i as nat) < 0x1_0000_0000,
        location_offset(new_location(es, i as nat)) == start_sector(es, i as nat),
        location_count(new_location(es, i as nat)) == entry_sectors(es, i),
        start_sector(es, i as nat) >= 2,
{
    assert(es[i].slot < SLOT_COUNT);
    lemma_start_monotone(es, 0, i as nat);
    let o = start_sector(es, i as nat);
    let c = entry_sectors(es, i);
    lemma_fundamental_div_mod_converse(packed_location(o, c) as int, 256, o as int, c as int);
}

/// What `slot` holds after all entries are written: the new location of the
/// entry for that slot, or zero where there is none.
proof fn lemma_table_location(es: Seq<EntryView>, n: nat, slot: nat) -> (found: Option<nat>)
    requires
        n <= es.len(),
    ensures
        found matches Some(i) ==> i < n && es[i as int].slot == slot
            && table_location(es, n, slot) == new_location(es, i)
            && forall|j: int| i < j < n ==> #[trigger] es[j].slot != slot,
        found is None ==> table_location(es, n, slot) == 0
            && forall|j: int| 0 <= j < n ==> #[trigger] es[j].slot != slot,
    decreases n,
{
    if n == 0 {
        None
    } else if es[n - 1].slot == slot {
        Some((n - 1) as nat)
    } else {
        lemma_table_location(es, (n - 1) as nat, slot)
    }
}

/// The location entry of every slot can be read back from the table.
proof fn lemma_table_read_back(es: Seq<EntryView>, slot: int)
    requires
        encodable(es),
        0 <= slot < SLOT_COUNT,
    ensures
        location_at(packed_container(es), slot) == table_location(es, es.len(), slot as nat),
{
    let v = table_location(es, es.len(), slot as nat);
    let found = lemma_table_location(es, es.len(), slot as nat);
    if let Some(i) = found {
        lemma_new_location_bounds(es, i as int);
    }
    let p = packed_container(es);
    let t = location_table(es);
    assert(p.subrange(0, 4096) =~= t);
    assert forall|j: int| 0 <= j < 4 implies p[4 * slot + j] == #[trigger] be32_bytes(v)[j] by {
        assert(p[4 * slot + j] == t[4 * slot + j]);
        lemma_fundamental_div_mod_converse(4 * slot + j, 4, slot, j);
    }
    lemma_be32_round_trip(v);
}

/// Sector alignment of a rewritten container: its length is a whole number of
/// sectors, and every slot that it fills points at a sector past the two
/// header tables, with every entry's sectors inside the file.
pub proof fn lemma_sector_alignment(cands: Seq<CandidateView>, ages: Seq<Option<i64>>, threshold: i64)
    requires
        compaction(cands, ages, threshold) matches Ok(Some(_)),
    ensures
        compaction(cands, ages, threshold) matches Ok(Some(bytes)) && {
            &&& bytes.len() % 4096 == 0
            &&& forall|slot: int| 0 <= slot < SLOT_COUNT && #[trigger] location_at(bytes, slot) != 0 ==> {
                &&& location_offset(location_at(bytes, slot)) >= 2
                &&& (location_offset(location_at(bytes, slot)) + location_count(location_at(bytes, slot))) * 4096 <= bytes.len()
            }
        },
{
    let es = survivors(cands, ages, threshold)->Ok_0;
    let bytes = packed_container(es);
    lemma_packed_length(es, es.len());
    assert forall|slot: int| 0 <= slot < SLOT_COUNT && #[trigger] location_at(bytes, slot) != 0 implies {
        &&& location_offset(location_at(bytes, slot)) >= 2
        &&& (location_offset(location_at(bytes, slot)) + location_count(location_at(bytes, slot))) * 4096 <= bytes.len()
    } by {
        lemma_table_read_back(es, slot);
        let found = lemma_table_location(es, es.len(), slot as nat);
        if let Some(i) = found {
            lemma_new_location_bounds(es, i as int);
            lemma_start_monotone(es, (i + 1) as nat, es.len());
        }
    }
}

/// The rewritten container is as long as the sectors it uses.
proof fn lemma_packed_length(es: Seq<EntryView>, n: nat)
    requires
        n <= es.len(),
    ensures
        crate::pack::payload_area(es, n).len() == (start_sector(es, n) - 2) * 4096,
        n == es.len() ==> packed_container(es).len() == start_sector(es, n) * 4096,
    decreases n,
{
    if n > 0 {
        lemma_packed_length(es, (n - 1) as nat);
    }
    lemma_start_monotone(es, 0, n);
}

/// Every entry's record (header and body) fits in the sectors given to it.
pub open spec fn records_fit(es: Seq<EntryView>) -> bool {
    forall|i: int| 0 <= i < es.len() ==> #[trigger] es[i].body.len() + 5 <= entry_sectors(es, i) * 4096
}

/// Entries come in the order in which a scan visits their slots.
pub open spec fn in_visit_order(es: Seq<EntryView>) -> bool {
    forall|i: int, j: int| 0 <= i < j < es.len() ==> visit_rank(#[trigger] es[i].slot as int) < visit_rank(#[trigger] es[j].slot as int)
}

/// Every entry's body decompresses under its tag.
pub open spec fn all_decompress(es: Seq<EntryView>) -> bool {
    forall|i: int| 0 <= i < es.len() ==> decompressed(#[trigger] es[i].tag, es[i].body) is Ok
}

/// What a scan finds for an entry.
pub open spec fn candidate_of(e: EntryView) -> CandidateView {
    CandidateView { slot: e.slot, tag: e.tag, body: e.body, payload: decompressed(e.tag, e.body)->Ok_0 }
}

/// The sectors of entry `i` sit at its offset in the payload area.
proof fn lemma_payload_slice(es: Seq<EntryView>, n: nat, i: int)
    requires
        0 <= i < n <= es.len(),
    ensures
        payload_area(es, n).len() >= (start_sector(es, (i + 1) as nat) - 2) * 4096,
        payload_area(es, n).subrange((start_sector(es, i as nat) - 2) * 4096, (start_sector(es, (i + 1) as nat) - 2) * 4096)
            == fitted(record(es[i]), entry_sectors(es, i) * 4096),
    decreases n,
{
    lemma_packed_length(es, (i + 1) as nat);
    lemma_packed_length(es, i as nat);
    lemma_packed_length(es, n);
    lemma_start_monotone(es, (i + 1) as nat, n);
    if n == i + 1 {
        let a = payload_area(es, i as nat);
        let f = fitted(record(es[i]), entry_sectors(es, i) * 4096);
        assert(payload_area(es, n) == a + f);
        assert(payload_area(es, n).subrange(a.len() as int, (a.len() + f.len()) as int) =~= f);
    } else {
        lemma_payload_slice(es, (n - 1) as nat, i);
        lemma_packed_length(es, (n - 1) as nat);
        let a = payload_area(es, (n - 1) as nat);
        let lo = (start_sector(es, i as nat) - 2) * 4096;
        let hi = (start_sector(es, (i + 1) as nat) - 2) * 4096;
        lemma_start_monotone(es, i as nat, (i + 1) as nat);
        assert(payload_area(es, n).subrange(lo, hi) =~= a.subrange(lo, hi));
    }
}

/// A slot whose location points at a whole stored record reads as that record.
proof fn lemma_read_record(p: Seq<u8>, e: EntryView, start: int, cap: int)
    requires
        location_at(p, e.slot as int) != 0,
        start == location_offset(location_at(p, e.slot as int)) * 4096,
        0 <= start,
        start + cap <= p.len(),
        record(e).len() <= cap,
        e.body.len() + 1 < 0x1_0000_0000,
        p.subrange(start, start + cap) == fitted(record(e), cap as nat),
        decompressed(e.tag, e.body) is Ok,
    ensures
        slot_read(p, e.slot) == SlotRead::Found(candidate_of(e)),
{
    let r = record(e);
    assert forall|j: int| 0 <= j < r.len() implies p[start + j] == #[trigger] r[j] by {
        assert(p.subrange(start, start + cap)[j] == fitted(r, cap as nat)[j]);
    }
    lemma_be32_round_trip(e.body.len() + 1);
    assert(p[start] == r[0]);
    assert(p[start + 1] == r[1]);
    assert(p[start + 2] == r[2]);
    assert(p[start + 3] == r[3]);
    assert(be32(p, start) == e.body.len() + 1);
    assert(p[start + 4] == r[4]);
    assert(p.subrange(start + 5, start + 5 + e.body.len()) =~= e.body) by {
        assert forall|j: int| 0 <= j < e.body.len() implies p[start + 5 + j] == e.body[j] by {
            assert(p[start + 5 + j] == r[5 + j]);
        }
    }
}

/// Reading the slot of entry `i` in the rewritten container finds that entry.
#[verifier::spinoff_prover]
#[verifier::rlimit(40)]
proof fn lemma_entry_read_back(es: Seq<EntryView>, i: int)
    requires
        encodable(es),
        records_fit(es),
        all_decompress(es),
        0 <= i < es.len(),
    ensures
        location_at(packed_container(es), es[i].slot as int) == new_location(es, i as nat)
            ==> slot_read(packed_container(es), es[i].slot) == SlotRead::Found(candidate_of(es[i])),
{
    let p = packed_container(es);
    let e = es[i];
    lemma_new_location_bounds(es, i);
    lemma_payload_slice(es, es.len(), i);
    lemma_packed_length(es, es.len());
    let start: int = (start_sector(es, i as nat) * 4096) as int;
    let cap: int = (entry_sectors(es, i) * 4096) as int;
    let area = payload_area(es, es.len());
    assert(p.subrange(8192, p.len() as int) =~= area);
    assert(e.body.len() + 5 <= entry_sectors(es, i) * 4096);
    assert(e.body.len() + 1 < 0x1_0000_0000);
    assert(decompressed(e.tag, e.body) is Ok);
    assert(start_sector(es, (i + 1) as nat) * 4096 == start + cap);
    assert(p.subrange(start, start + cap) =~= area.subrange(start - 8192, start - 8192 + cap));
    if location_at(p, e.slot as int) == new_location(es, i as nat) {
        lemma_read_record(p, e, start, cap);
    }
}

/// The candidates that a scan finds for entries.
pub open spec fn candidates_of(es: Seq<EntryView>) -> Seq<CandidateView> {
    es.map_values(|e: EntryView| candidate_of(e))
}

/// Scanning the first `k` visited slots of a rewritten container finds the
/// first `m` entries, those whose slots are visited before step `k`.
proof fn lemma_rescan(es: Seq<EntryView>, k: nat) -> (m: nat)
    requires
        encodable(es),
        records_fit(es),
        all_decompress(es),
        in_visit_order(es),
        k <= SLOT_COUNT,
    ensures
        m <= es.len(),
        forall|i: int| 0 <= i < m ==> visit_rank(#[trigger] es[i].slot as int) < k,
        forall|i: int| m <= i < es.len() ==> visit_rank(#[trigger] es[i].slot as int) >= k,
        scanned(packed_container(es), k) == Ok::<_, crate::scan::ContainerError>(
            (candidates_of(es.take(m as int)), Seq::<crate::scan::Skipped>::empty()),
        ),
    decreases k,
{
    if k == 0 {
        assert(candidates_of(es.take(0)) =~= Seq::<CandidateView>::empty());
        0
    } else {
        let m0 = lemma_rescan(es, (k - 1) as nat);
        let p = packed_container(es);
        let s = visit_slot(k - 1);
        lemma_visit_rank(k - 1, 0);
        lemma_table_read_back(es, s);
        let found = lemma_table_location(es, es.len(), s as nat);
        match found {
            Some(i) => {
                assert(es[i as int].slot < SLOT_COUNT);
                lemma_visit_rank(0, es[i as int].slot as int);
                if (i as int) < m0 {
                    assert(visit_rank(es[i as int].slot as int) < k - 1);
                }
                if (i as int) > m0 {
                    assert(visit_rank(es[m0 as int].slot as int) < visit_rank(es[i as int].slot as int));
                }
                assert(i == m0);
                lemma_entry_read_back(es, i as int);
                assert(candidates_of(es.take(m0 + 1 as int)) =~= candidates_of(es.take(m0 as int)).push(candidate_of(es[m0 as int])));
                assert forall|j: int| (m0 + 1) <= j < es.len() implies visit_rank(#[trigger] es[j].slot as int) >= k by {
                    assert(visit_rank(es[m0 as int].slot as int) < visit_rank(es[j].slot as int));
                }
                m0 + 1
            },
            None => {
                assert forall|j: int| m0 <= j < es.len() implies visit_rank(#[trigger] es[j].slot as int) >= k by {
                    assert(es[j].slot < SLOT_COUNT);
                    lemma_visit_rank(0, es[j].slot as int);
                    assert(es[j].slot != s);
                }
                m0
            },
        }
    }
}

/// Reading a rewritten container back finds exactly its entries, in order,
/// with their tags and compressed bodies as they were, and nothing skipped;
/// so the ages read from their payloads are the ones read before. This holds
/// where every record fits in the sectors given to it: sectors are counted
/// from the body alone, so a record whose body is empty, or leaves fewer than
/// five bytes free in its last sector, is cut short.
pub proof fn lemma_round_trip(es: Seq<EntryView>)
    requires
        encodable(es),
        records_fit(es),
        all_decompress(es),
        in_visit_order(es),
    ensures
        container_scan(packed_container(es)) == Ok::<_, crate::scan::ContainerError>(
            (candidates_of(es), Seq::<crate::scan::Skipped>::empty()),
        ),
{
    let m = lemma_rescan(es, SLOT_COUNT as nat);
    if m < es.len() {
        assert(es[m as int].slot < SLOT_COUNT);
        lemma_visit_rank(0, es[m as int].slot as int);
    }
    assert(es.take(m as int) =~= es);
    lemma_packed_length(es, es.len());
    lemma_start_monotone(es, 0, es.len());
}

/// Ages read from candidates' payloads by a reader that depends on the
/// payload alone.
pub open spec fn ages_by(cands: Seq<CandidateView>, age: spec_fn(Seq<u8>) -> Option<i64>) -> Seq<Option<i64>> {
    cands.map_values(|c: CandidateView| age(c.payload))
}

/// Candidates as a scan finds them: slots in the grid, visited in order, and
/// each payload the decompressed body.
pub open spec fn well_scanned(c: Seq<CandidateView>) -> bool {
    &&& forall|i: int| 0 <= i < c.len() ==> {
        &&& #[trigger] c[i].slot < SLOT_COUNT
        &&& decompressed(c[i].tag, c[i].body) == Ok::<_, crate::decompress::DecompressError>(c[i].payload)
    }
    &&& forall|i: int, j: int| 0 <= i < j < c.len() ==> visit_rank(#[trigger] c[i].slot as int) < visit_rank(#[trigger] c[j].slot as int)
}

proof fn lemma_scanned_well(input: Seq<u8>, k: nat)
    requires
        k <= SLOT_COUNT,
        scanned(input, k) is Ok,
    ensures
        well_scanned(scanned(input, k)->Ok_0.0),
        forall|i: int| 0 <= i < scanned(input, k)->Ok_0.0.len() ==> visit_rank(#[trigger] scanned(input, k)->Ok_0.0[i].slot as int) < k,
    decreases k,
{
    if k > 0 {
        lemma_scanned_well(input, (k - 1) as nat);
        lemma_visit_rank(k - 1, 0);
    }
}

/// Whether a read age is present and above the threshold.
spec fn age_above(age: Option<i64>, threshold: i64) -> bool {
    age matches Some(a) && a > threshold
}

/// The rank just past the last of the first `n` candidates.
spec fn rank_bound(cands: Seq<CandidateView>, n: nat) -> int {
    if n == 0 {
        0
    } else {
        visit_rank(cands[n - 1].slot as int) + 1
    }
}

proof fn lemma_selected_well(
    cands: Seq<CandidateView>,
    age: spec_fn(Seq<u8>) -> Option<i64>,
    threshold: i64,
    n: nat,
)
    requires
        n <= cands.len(),
        well_scanned(cands),
        selected(cands, ages_by(cands, age), threshold, n) is Ok,
    ensures
        ({
            let es = selected(cands, ages_by(cands, age), threshold, n)->Ok_0;
            &&& in_visit_order(es)
            &&& all_decompress(es)
            &&& forall|i: int| 0 <= i < es.len() ==> {
                &&& visit_rank(#[trigger] es[i].slot as int) < rank_bound(cands, n)
                &&& es[i].slot < SLOT_COUNT
                &&& age_above(age(candidate_of(es[i]).payload), threshold)
            }
        }),
    decreases n,
{
    if n > 0 {
        lemma_selected_well(cands, age, threshold, (n - 1) as nat);
        let c = cands[n - 1];
        assert(c.slot < SLOT_COUNT);
        assert(ages_by(cands, age)[n - 1] == age(c.payload));
        if n > 1 {
            assert(visit_rank(cands[n - 2].slot as int) < visit_rank(cands[n - 1].slot as int));
        }
    }
}

proof fn lemma_reselect(es: Seq<EntryView>, age: spec_fn(Seq<u8>) -> Option<i64>, threshold: i64, k: nat)
    requires
        k <= es.len(),
        forall|i: int| 0 <= i < es.len() ==> age_above(age(#[trigger] candidate_of(es[i]).payload), threshold),
    ensures
        selected(candidates_of(es), ages_by(candidates_of(es), age), threshold, k) == Ok::<_, crate::scan::ContainerError>(es.take(k as int)),
    decreases k,
{
    if k == 0 {
        assert(es.take(0) =~= Seq::<EntryView>::empty());
    } else {
        lemma_reselect(es, age, threshold, (k - 1) as nat);
        let c = candidates_of(es);
        assert(c[k - 1] == candidate_of(es[k - 1]));
        assert(age_of(ages_by(c, age), k - 1) == age(candidate_of(es[k - 1]).payload));
        assert(es.take(k as int) =~= es.take(k - 1).push(es[k - 1]));
    }
}

/// Compacting twice changes nothing: rewriting a container, scanning the
/// result and compacting it again with the same threshold, and with ages read
/// by the same payload reader, gives the same bytes. This holds where every
/// surviving record fits in the sectors given to it (see
/// [`lemma_round_trip`]).
pub proof fn lemma_compaction_idempotent(input: Seq<u8>, age: spec_fn(Seq<u8>) -> Option<i64>, threshold: i64)
    requires
        container_scan(input) is Ok,
        compaction(container_scan(input)->Ok_0.0, ages_by(container_scan(input)->Ok_0.0, age), threshold) is Ok,
        records_fit(survivors(container_scan(input)->Ok_0.0, ages_by(container_scan(input)->Ok_0.0, age), threshold)->Ok_0),
    ensures
        ({
            let cands = container_scan(input)->Ok_0.0;
            let once = compaction(cands, ages_by(cands, age), threshold)->Ok_0;
            once matches Some(out) ==> {
                &&& container_scan(out) is Ok
                &&& container_scan(out)->Ok_0.1.len() == 0
                &&& compaction(container_scan(out)->Ok_0.0, ages_by(container_scan(out)->Ok_0.0, age), threshold)
                    == Ok::<_, crate::scan::ContainerError>(Some(out))
            }
        }),
{
    let cands = container_scan(input)->Ok_0.0;
    let ages = ages_by(cands, age);
    let once = compaction(cands, ages, threshold)->Ok_0;
    if once is Some {
        lemma_scanned_well(input, SLOT_COUNT as nat);
        lemma_selected_well(cands, age, threshold, cands.len());
        let es = survivors(cands, ages, threshold)->Ok_0;
        lemma_round_trip(es);
        let cands2 = candidates_of(es);
        lemma_reselect(es, age, threshold, es.len());
        assert(es.take(es.len() as int) =~= es);
        assert(cands2.len() == es.len());
    }
}

/// Whether a read age is present and at most the threshold.
spec fn age_stale(age: Option<i64>, threshold: i64) -> bool {
    age matches Some(a) && a <= threshold
}

proof fn lemma_none_selected(cands: Seq<CandidateView>, ages: Seq<Option<i64>>, threshold: i64, k: nat)
    requires
        k <= cands.len() <= ages.len(),
        forall|i: int| 0 <= i < ages.len() ==> age_stale(#[trigger] ages[i], threshold),
    ensures
        selected(cands, ages, threshold, k) == Ok::<_, crate::scan::ContainerError>(Seq::<EntryView>::empty()),
    decreases k,
{
    if k > 0 {
        lemma_none_selected(cands, ages, threshold, (k - 1) as nat);
        assert(age_stale(ages[k - 1], threshold));
    }
}

/// A container in which every age was read and none is above the threshold
/// is dropped whole: nothing is written for it.
pub proof fn lemma_all_stale_pruned(cands: Seq<CandidateView>, ages: Seq<Option<i64>>, threshold: i64)
    requires
        ages.len() == cands.len(),
        forall|i: int| 0 <= i < ages.len() ==> (#[trigger] ages[i] matches Some(a) && a <= threshold),
    ensures
        compaction(cands, ages, threshold) == Ok::<_, crate::scan::ContainerError>(None::<Seq<u8>>),
{
    assert forall|i: int| 0 <= i < ages.len() implies age_stale(#[trigger] ages[i], threshold) by {}
    lemma_none_selected(cands, ages, threshold, cands.len());
}

/// An age equal to the threshold is not kept: a container whose one occupied
/// slot has exactly that age is dropped whole.
pub proof fn lemma_threshold_boundary(c: CandidateView, threshold: i64)
    ensures
        compaction(seq![c], seq![Some(threshold)], threshold) == Ok::<_, crate::scan::ContainerError>(None::<Seq<u8>>),
{
    lemma_all_stale_pruned(seq![c], seq![Some(threshold)], threshold);
}

} // verus!
