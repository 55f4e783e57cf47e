use mineral::error::Error;
use mineral::wal::{insert_segment, segment_version, frame_record, read_records, Entry, Payload, Wal, Wlog, PAGE_SIZE, STYPE_FIRST, STYPE_FULL};

/// Deterministic record sizes and fill bytes standing in for random ones.
fn sample(i: usize) -> (u8, usize) {
    (((i * 37) % 254) as u8, (i * 7919) % 10000)
}

#[test]
fn wal_test_add() {
    let mut wal = Wal::new(vec![]);
    wal.set_file_max_size(409600);
    let mut list: Vec<(u8, usize)> = vec![];
    for i in 0..1000 {
        list.push(sample(i));
    }
    for (meta, meta_len) in list.clone() {
        let app_result = wal.append(&vec![meta; meta_len]);
        assert!(app_result.is_ok());
    }
    assert!(wal.versions().len() > 1);
    let read = wal.reader(0, 1000);
    let mut index = 0;
    for payload in read {
        let item = list[index];
        index += 1;
        assert_eq!(payload.data, vec![item.0; item.1]);
        assert_eq!(payload.version, index as u64);
    }
    assert_eq!(index, 1000);
}

#[test]
fn truncate_all_starts_over() {
    let mut wal = Wal::new(vec![]);
    wal.set_file_max_size(20);
    for i in 0..3u8 {
        wal.append(&vec![i; 10]).unwrap();
    }
    assert_eq!(wal.truncate_all(), vec![0, 2, 3]);
    assert_eq!(wal.versions(), vec![0]);
    assert_eq!(wal.append(&vec![1]).unwrap(), 1);
}

#[test]
fn versions_go_up_by_one() {
    let mut wal = Wal::new(vec![]);
    assert_eq!(wal.append(&vec![1]).unwrap(), 1);
    assert_eq!(wal.append(&vec![2]).unwrap(), 2);
    assert_eq!(wal.append(&vec![]).unwrap(), 3);
    assert_eq!(wal.seq(), 3);
}

#[test]
fn wal_restart_replays_every_payload() {
    let mut wal = Wal::new(vec![]);
    let payloads = vec![b"first".to_vec(), vec![0u8; 40000], b"third".to_vec()];
    for (i, p) in payloads.iter().enumerate() {
        assert_eq!(wal.append(p).unwrap(), i as u64 + 1);
    }
    let mut found = vec![];
    for i in 0..wal.versions().len() {
        let (v, bytes) = wal.segment_bytes(i);
        found.push(Wlog::new(v, bytes));
    }
    let reopened = Wal::new(found);
    assert_eq!(reopened.seq(), 3);
    let read = reopened.reader(0, 0);
    assert_eq!(read.len(), 3);
    for (i, p) in read.iter().enumerate() {
        assert_eq!(p.data, payloads[i]);
        assert_eq!(p.version, i as u64 + 1);
    }
}

#[test]
fn checkpoint_retires_old_segments() {
    let mut wal = Wal::new(vec![]);
    // each record takes 16 bytes: segment 0 holds versions 1..=99, and
    // version 100 opens a new segment
    wal.set_file_max_size(1580);
    for _ in 0..100 {
        wal.append(&vec![7]).unwrap();
    }
    // segment 100 holds 100 records
    wal.set_file_max_size(1600);
    for _ in 0..149 {
        wal.append(&vec![7]).unwrap();
    }
    assert_eq!(wal.versions(), vec![0, 100, 200]);
    let retired = wal.checked_version(150);
    assert_eq!(retired, vec![0, 100]);
    assert_eq!(wal.versions(), vec![200]);
}

#[test]
fn checkpoint_seals_an_old_active_segment() {
    let mut wal = Wal::new(vec![]);
    wal.append(&vec![1]).unwrap();
    wal.append(&vec![2]).unwrap();
    let retired = wal.checked_version(5);
    assert_eq!(retired, vec![0]);
    assert_eq!(wal.versions(), vec![2]);
    assert_eq!(wal.append(&vec![3]).unwrap(), 3);
}

#[test]
fn reader_respects_the_version_range() {
    let mut wal = Wal::new(vec![]);
    wal.set_file_max_size(20);
    for i in 0..4u8 {
        wal.append(&vec![i; 10]).unwrap();
    }
    assert_eq!(wal.versions(), vec![0, 2, 3, 4]);
    let read = wal.reader(2, 3);
    let versions: Vec<u64> = read.iter().map(|p| p.version).collect();
    assert_eq!(versions, vec![2, 3]);
}

#[test]
fn framing_round_trips_records_across_pages() {
    let records = vec![vec![1u8; 10], vec![2u8; 70000], vec![], vec![3u8; PAGE_SIZE - 30]];
    let mut seg: Vec<u8> = vec![];
    for r in &records {
        let bytes = frame_record(seg.len(), r);
        seg.extend_from_slice(&bytes);
    }
    assert_eq!(read_records(&seg), records);
}

#[test]
fn empty_record_at_the_end_reads_back() {
    let records = vec![vec![5u8; 3], vec![]];
    let mut seg: Vec<u8> = vec![];
    for r in &records {
        let bytes = frame_record(seg.len(), r);
        seg.extend_from_slice(&bytes);
    }
    assert_eq!(read_records(&seg), records);
}

#[test]
fn framing_pads_a_nearly_full_page() {
    // 5 bytes left in the page: they are padding and the chunk starts a page
    let bytes = frame_record(PAGE_SIZE - 5, &vec![9u8; 3]);
    assert_eq!(bytes.len(), 5 + 7 + 3);
    assert_eq!(&bytes[..5], &[0, 0, 0, 0, 0]);
    assert_eq!(bytes[5 + 6], STYPE_FULL);
}

#[test]
fn framing_splits_at_the_page_end() {
    let bytes = frame_record(PAGE_SIZE - 10, &vec![9u8; 5]);
    // three data bytes fit after the header: FIRST, then LAST on the next page
    assert_eq!(bytes[6], STYPE_FIRST);
    assert_eq!(bytes.len(), 10 + 7 + 2);
    assert_eq!(bytes[10 + 6], 3);
}

#[test]
fn corrupt_chunk_stops_its_page_only() {
    let mut seg: Vec<u8> = vec![];
    seg.extend_from_slice(&frame_record(0, &vec![1u8; 4]));
    seg.extend_from_slice(&frame_record(seg.len(), &vec![2u8; 4]));
    seg.resize(PAGE_SIZE, 0);
    seg.extend_from_slice(&frame_record(PAGE_SIZE, &vec![3u8; 4]));
    seg[7] ^= 0xFF;
    assert_eq!(read_records(&seg), vec![vec![3u8; 4]]);
}

#[test]
fn entry_checksum_is_crc32() {
    let e = Entry::new(STYPE_FULL, &b"abc".to_vec());
    assert_eq!(e.header.crc32, 0x352441C2);
    assert_eq!(e.header.dlen, 3);
    let bytes = e.encode();
    assert_eq!(bytes, vec![0x35, 0x24, 0x41, 0xC2, 0, 3, 4, b'a', b'b', b'c']);
    let back = Entry::decode(&bytes).unwrap();
    assert_eq!(back.data, b"abc".to_vec());
    assert_eq!(Entry::to_header(&bytes).stype, STYPE_FULL);
}

#[test]
fn entry_with_bad_checksum_is_invalid() {
    let mut bytes = Entry::new(STYPE_FULL, &b"abc".to_vec()).encode();
    bytes[7] = b'x';
    assert!(matches!(Entry::decode(&bytes), Err(Error::InvalidWalData)));
    assert!(matches!(Entry::decode(&vec![1, 2, 3]), Err(Error::InvalidWalData)));
}

#[test]
fn empty_chunk_decodes() {
    let bytes = Entry::new(STYPE_FULL, &vec![]).encode();
    assert_eq!(bytes.len(), 7);
    let back = Entry::decode(&bytes).unwrap();
    assert!(back.data.is_empty());
}

#[test]
fn payload_round_trip() {
    let p = Payload::new(0x0102030405060708, &vec![9, 9]);
    let bytes = p.encode();
    assert_eq!(bytes, vec![9, 9, 1, 2, 3, 4, 5, 6, 7, 8]);
    let back = Payload::decode(&bytes);
    assert_eq!(back.data, vec![9, 9]);
    assert_eq!(back.version, 0x0102030405060708);
}

#[test]
fn latest_version_reads_the_segment_end() {
    let mut log = Wlog::new(4, vec![]);
    assert_eq!(log.get_latest_version(), 0);
    log.append(&Payload::new(77, &vec![1, 2, 3]).encode()).unwrap();
    assert_eq!(log.get_latest_version(), 77);
    assert_eq!(log.read_all().len(), 1);
}

#[test]
fn segment_names_carry_their_version() {
    assert_eq!(segment_version(&b"@wal-200".to_vec()), Some(200));
    assert_eq!(segment_version(&b"@checked-wal-7".to_vec()), Some(7));
    assert_eq!(segment_version(&b"@wal-".to_vec()), None);
    assert_eq!(segment_version(&b"@wal-12x".to_vec()), None);
    assert_eq!(segment_version(&b"18446744073709551615".to_vec()), Some(u64::MAX));
    assert_eq!(segment_version(&b"@wal-18446744073709551616".to_vec()), None);
}

#[test]
fn segments_are_kept_in_order() {
    let mut logs = vec![];
    for v in [100u64, 0, 200, 100] {
        insert_segment(&mut logs, Wlog::new(v, vec![]));
    }
    let versions: Vec<u64> = logs.iter().map(|w| w.version).collect();
    assert_eq!(versions, vec![0, 100, 200]);
}
