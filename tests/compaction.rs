use std::io::Write;

use thanos::codec::{pack_location, read_be32, sectors_for, HEADER_SIZE, SECTOR_SIZE};
use thanos::decompress::{decompress, DecompressError};
use thanos::pack::{compact_scanned, is_kept, repack, select_survivors, Compacted, Entry};
use thanos::scan::{classify_decoded, read_slot, scan_container, Candidate, ContainerError, Scan, SlotReadResult, Skipped};

fn gzip(data: &[u8]) -> Vec<u8> {
    let mut e = flate2::write::GzEncoder::new(Vec::new(), flate2::Compression::default());
    e.write_all(data).unwrap();
    e.finish().unwrap()
}

fn zlib(data: &[u8]) -> Vec<u8> {
    let mut e = flate2::write::ZlibEncoder::new(Vec::new(), flate2::Compression::default());
    e.write_all(data).unwrap();
    e.finish().unwrap()
}

/// A container with the given (slot, tag, body) records, each placed at the
/// given sector.
fn container(records: &[(usize, u8, Vec<u8>, u32)]) -> Vec<u8> {
    let mut out = vec![0u8; HEADER_SIZE];
    for (slot, tag, body, sector) in records {
        let count = ((body.len() + 5 + 4095) / 4096) as u32;
        let loc = (sector << 8) | count;
        out[slot * 4..slot * 4 + 4].copy_from_slice(&loc.to_be_bytes());
        let start = *sector as usize * SECTOR_SIZE;
        let end = start + count as usize * SECTOR_SIZE;
        if out.len() < end {
            out.resize(end, 0);
        }
        out[start..start + 4].copy_from_slice(&(body.len() as u32 + 1).to_be_bytes());
        out[start + 4] = *tag;
        out[start + 5..start + 5 + body.len()].copy_from_slice(body);
    }
    out
}

fn scan_ok(input: &Vec<u8>) -> Scan {
    match scan_container(input) {
        Ok(s) => s,
        Err(e) => panic!("scan failed: {:?}", e),
    }
}

fn written(r: Result<Compacted, ContainerError>) -> Vec<u8> {
    match r {
        Ok(Compacted::Written(b)) => b,
        other => panic!("expected a written container, got {:?}", other),
    }
}

fn loc_of(bytes: &Vec<u8>, slot: usize) -> u32 {
    u32::from_be_bytes([bytes[slot * 4], bytes[slot * 4 + 1], bytes[slot * 4 + 2], bytes[slot * 4 + 3]])
}

#[test]
fn age_equal_to_threshold_is_dropped() {
    let input = container(&[(0, 2, zlib(b"payload"), 2)]);
    let scan = scan_ok(&input);
    assert_eq!(scan.candidates.len(), 1);
    let r = compact_scanned(&scan.candidates, &vec![Some(0)], 0);
    assert!(matches!(r, Ok(Compacted::FullyPruned)));
    let r = compact_scanned(&scan.candidates, &vec![Some(1)], 0);
    assert!(matches!(r, Ok(Compacted::Written(_))));
}

#[test]
fn strict_greater_than_keeps() {
    assert!(!is_kept(0, 0));
    assert!(is_kept(1, 0));
    assert!(!is_kept(-5, -5));
    assert!(is_kept(i64::MAX, i64::MAX - 1));
}

#[test]
fn survivors_are_sector_aligned() {
    let big: Vec<u8> = (0..5000u32).map(|i| (i * 7 % 251) as u8).collect();
    let input = container(&[
        (3, 2, zlib(&big), 9),
        (40, 1, gzip(b"second"), 2),
        (7, 2, zlib(b"dropped"), 20),
    ]);
    let scan = scan_ok(&input);
    // Visit order is x outer, z inner: slot 3 (x 3), then 7, then 40 (x 8).
    let slots: Vec<usize> = scan.candidates.iter().map(|c| c.slot).collect();
    assert_eq!(slots, vec![3, 7, 40]);
    let out = written(compact_scanned(&scan.candidates, &vec![Some(10), Some(0), Some(10)], 0));
    assert_eq!(out.len() % SECTOR_SIZE, 0);
    let first = loc_of(&out, 3);
    let second = loc_of(&out, 40);
    assert_eq!(first >> 8, 2);
    let body_len = scan.candidates[0].body.len();
    let count = ((body_len + 4095) / 4096) as u32;
    assert_eq!(first & 0xff, count);
    assert_eq!(second >> 8, 2 + count);
    assert_eq!(loc_of(&out, 7), 0);
    assert_eq!(out.len(), (2 + count as usize + 1) * SECTOR_SIZE);
    assert!(out[4096..8192].iter().all(|b| *b == 0));
}

#[test]
fn rewritten_container_reads_back() {
    let a = zlib(b"first chunk payload");
    let b = gzip(b"second chunk payload");
    let input = container(&[(0, 2, a.clone(), 5), (33, 1, b.clone(), 2)]);
    let scan = scan_ok(&input);
    let out = written(compact_scanned(&scan.candidates, &vec![Some(100), Some(200)], 50));
    let again = scan_ok(&out);
    assert_eq!(again.skipped.len(), 0);
    assert_eq!(again.candidates.len(), 2);
    assert_eq!(again.candidates[0].slot, 0);
    assert_eq!(again.candidates[0].tag, 2);
    assert_eq!(again.candidates[0].body, a);
    assert_eq!(again.candidates[0].payload, b"first chunk payload".to_vec());
    assert_eq!(again.candidates[1].slot, 33);
    assert_eq!(again.candidates[1].tag, 1);
    assert_eq!(again.candidates[1].body, b);
    assert_eq!(again.candidates[1].payload, b"second chunk payload".to_vec());
}

#[test]
fn compacting_twice_changes_nothing() {
    let input = container(&[
        (1, 2, zlib(b"one"), 30),
        (2, 2, zlib(b"two"), 4),
        (64, 1, gzip(b"three"), 12),
    ]);
    let scan = scan_ok(&input);
    let ages = vec![Some(5), Some(1), Some(9)];
    let once = written(compact_scanned(&scan.candidates, &ages, 3));
    let rescan = scan_ok(&once);
    let kept_ages = vec![Some(5), Some(9)];
    let twice = written(compact_scanned(&rescan.candidates, &kept_ages, 3));
    assert_eq!(once, twice);
}

#[test]
fn unknown_scheme_is_skipped() {
    let input = container(&[(0, 5, vec![1, 2, 3], 2), (1, 2, zlib(b"kept"), 3)]);
    let scan = scan_ok(&input);
    assert_eq!(scan.skipped, vec![Skipped::UnknownScheme { slot: 0, tag: 5 }]);
    assert_eq!(scan.candidates.len(), 1);
    let out = written(compact_scanned(&scan.candidates, &vec![Some(1)], 0));
    assert_eq!(loc_of(&out, 0), 0);
    assert_eq!(loc_of(&out, 1), (2 << 8) | 1);
}

#[test]
fn corrupt_body_is_skipped() {
    let input = container(&[(0, 2, vec![9, 9, 9, 9], 2), (1, 1, gzip(b"ok"), 3)]);
    let scan = scan_ok(&input);
    assert_eq!(scan.skipped, vec![Skipped::Undecodable { slot: 0 }]);
    assert_eq!(scan.candidates.len(), 1);
    assert_eq!(scan.candidates[0].slot, 1);
}

#[test]
fn every_entry_stale_prunes_container() {
    let input = container(&[(0, 2, zlib(b"a"), 2), (5, 2, zlib(b"b"), 3)]);
    let scan = scan_ok(&input);
    let r = compact_scanned(&scan.candidates, &vec![Some(-1), Some(7)], 7);
    assert!(matches!(r, Ok(Compacted::FullyPruned)));
}

#[test]
fn short_file_has_missing_header() {
    assert!(matches!(scan_container(&vec![0u8; 100]), Err(ContainerError::HeaderMissing)));
    assert!(matches!(scan_container(&vec![0u8; 8191]), Err(ContainerError::HeaderMissing)));
    let empty = scan_ok(&vec![0u8; 8192]);
    assert_eq!(empty.candidates.len(), 0);
    assert_eq!(empty.skipped.len(), 0);
}

#[test]
fn zero_length_record_is_rejected() {
    let mut input = container(&[(4, 2, zlib(b"x"), 2)]);
    input[8192..8196].copy_from_slice(&[0, 0, 0, 0]);
    assert!(matches!(scan_container(&input), Err(ContainerError::BadLength { slot: 4 })));
}

#[test]
fn record_past_end_is_rejected() {
    let mut input = container(&[(4, 2, zlib(b"x"), 2)]);
    input[8192..8196].copy_from_slice(&9000u32.to_be_bytes());
    assert!(matches!(scan_container(&input), Err(ContainerError::PayloadOutOfBounds { slot: 4 })));
    let mut input = vec![0u8; 8192];
    input[0..4].copy_from_slice(&((50u32 << 8) | 1).to_be_bytes());
    assert!(matches!(scan_container(&input), Err(ContainerError::PayloadOutOfBounds { slot: 0 })));
}

#[test]
fn unreadable_age_fails_container() {
    let input = container(&[(0, 2, zlib(b"a"), 2), (32, 2, zlib(b"b"), 3)]);
    let scan = scan_ok(&input);
    let r = compact_scanned(&scan.candidates, &vec![Some(9), None], 0);
    assert!(matches!(r, Err(ContainerError::AgeUnreadable { slot: 32 })));
    let r = compact_scanned(&scan.candidates, &vec![Some(9)], 0);
    assert!(matches!(r, Err(ContainerError::AgeUnreadable { slot: 32 })));
}

#[test]
fn oversized_entry_is_too_large() {
    let c = Candidate { slot: 0, tag: 2, body: vec![0u8; 256 * 4096 + 1], payload: vec![] };
    let r = compact_scanned(&vec![c], &vec![Some(1)], 0);
    assert!(matches!(r, Err(ContainerError::TooLarge)));
}

#[test]
fn selection_keeps_order() {
    let cands = vec![
        Candidate { slot: 9, tag: 1, body: vec![1], payload: vec![] },
        Candidate { slot: 2, tag: 2, body: vec![2], payload: vec![] },
        Candidate { slot: 5, tag: 2, body: vec![3], payload: vec![] },
    ];
    let es = select_survivors(&cands, &vec![Some(3), Some(1), Some(4)], 2).unwrap();
    let slots: Vec<usize> = es.iter().map(|e| e.slot).collect();
    assert_eq!(slots, vec![9, 5]);
    assert_eq!(es[1].body, vec![3]);
}

#[test]
fn repack_exact_bytes() {
    let es = vec![Entry { slot: 1, tag: 2, body: vec![0xaa, 0xbb] }];
    let out = repack(&es);
    assert_eq!(out.len(), 3 * 4096);
    assert_eq!(&out[4..8], &[0, 0, 2, 1]);
    assert_eq!(&out[8192..8199], &[0, 0, 0, 3, 2, 0xaa, 0xbb]);
    assert!(out[8199..].iter().all(|b| *b == 0));
    assert!(out[..4].iter().all(|b| *b == 0));
}

#[test]
fn codec_values() {
    assert_eq!(pack_location(2, 1), 513);
    assert_eq!(pack_location(0x12345, 0xff), 0x0123_45ff);
    assert_eq!(sectors_for(0), 0);
    assert_eq!(sectors_for(1), 1);
    assert_eq!(sectors_for(4096), 1);
    assert_eq!(sectors_for(4097), 2);
    assert_eq!(read_be32(&vec![9, 0x01, 0x02, 0x03, 0x04], 1), 0x0102_0304);
}

#[test]
fn decompress_both_schemes() {
    assert_eq!(decompress(1, &gzip(b"hello")).unwrap(), b"hello".to_vec());
    assert_eq!(decompress(2, &zlib(b"world")).unwrap(), b"world".to_vec());
    assert_eq!(decompress(5, &vec![1, 2]).unwrap_err(), DecompressError::UnsupportedScheme { tag: 5 });
    assert_eq!(decompress(1, &zlib(b"x")).unwrap_err(), DecompressError::Corrupt);
    assert_eq!(decompress(2, &vec![0, 1, 2]).unwrap_err(), DecompressError::Corrupt);
}

#[test]
fn decoded_results_classify() {
    match classify_decoded(3, 2, vec![1], Ok(vec![7, 8])) {
        SlotReadResult::Found(c) => {
            assert_eq!(c.slot, 3);
            assert_eq!(c.tag, 2);
            assert_eq!(c.body, vec![1]);
            assert_eq!(c.payload, vec![7, 8]);
        }
        other => panic!("expected a candidate, got {:?}", other),
    }
    assert!(matches!(
        classify_decoded(4, 9, vec![], Err(DecompressError::UnsupportedScheme { tag: 9 })),
        SlotReadResult::Skip(Skipped::UnknownScheme { slot: 4, tag: 9 })
    ));
    assert!(matches!(
        classify_decoded(5, 1, vec![0], Err(DecompressError::Corrupt)),
        SlotReadResult::Skip(Skipped::Undecodable { slot: 5 })
    ));
}

#[test]
fn slots_read_one_by_one() {
    let input = container(&[(6, 1, gzip(b"six"), 3)]);
    assert!(matches!(read_slot(&input, 5), SlotReadResult::Empty));
    match read_slot(&input, 6) {
        SlotReadResult::Found(c) => assert_eq!(c.payload, b"six".to_vec()),
        other => panic!("expected a candidate, got {:?}", other),
    }
}
