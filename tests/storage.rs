use mineral::bitmap::BitMap;
use mineral::datablock::DataBlock;
use mineral::error::Error;
use mineral::mainblock::{MainBlock, FLAG_DEL, FLAG_NORMAL, FLAG_OVERFLOW};
use mineral::state::MemFile;

fn pool(block_size: usize, delay: bool) -> DataBlock {
    DataBlock::new(vec![], BitMap::new(vec![]), block_size, delay)
}

fn main_block(fetch_size: usize) -> MainBlock {
    MainBlock::new(vec![], fetch_size, pool(1024, false))
}

#[test]
fn datablock_test_get() {
    let mut db = pool(1024, false);
    db.truncate();
    let list: Vec<(u8, usize, usize)> = vec![
        (3, 1024, 0),
        (1, 1023, 1),
        (2, 100, 2),
        (3, 1025, 3),
        (1, 102, 5),
        (2, 1, 6),
    ];
    for item in list {
        let set_buf = vec![item.0; item.1];
        match db.set(&set_buf) {
            Ok(set_pos) => {
                if let Ok(get_buf) = db.get(set_pos, item.1) {
                    assert_eq!(get_buf, set_buf);
                    assert_eq!(set_pos, item.2);
                } else {
                    assert!(false);
                }
            }
            _ => assert!(false),
        }
    }
}

#[test]
fn datablock_test_free() {
    let mut db = pool(1024, false);
    db.truncate();
    let list: Vec<(bool, usize, usize)> = vec![
        (false, 1025, 0),
        (true, 1025, 2),
        (false, 1025, 2),
        (true, 1024, 4),
    ];
    for item in list {
        let set_buf = vec![1u8; item.1];
        match db.set(&set_buf) {
            Ok(set_pos) => {
                if item.0 {
                    let _ = db.free(set_pos, item.1);
                }
                if let Ok(get_buf) = db.get(set_pos, item.1) {
                    assert_eq!(get_buf, set_buf);
                    assert_eq!(set_pos, item.2);
                } else {
                    assert!(false);
                }
            }
            _ => assert!(false),
        }
    }
}

#[test]
fn datablock_delay_mode_buffers_until_flush() {
    let mut db = pool(16, true);
    let index = db.set(&vec![7u8; 20]).unwrap();
    assert_eq!(index, 0);
    assert_eq!(db.get(0, 20).unwrap(), vec![7u8; 20]);
    assert_eq!(db.file_bytes().len(), 0);
    let image = db.flush(9);
    assert_eq!(db.file_bytes(), &vec![7u8; 20]);
    assert_eq!(db.checkpoint(), 9);
    assert_eq!(image, vec![0xC0, 0, 0, 0, 0, 0, 0, 0, 9]);
}

#[test]
fn datablock_update_in_place_or_moved() {
    let mut db = pool(16, false);
    let a = db.set(&vec![1u8; 20]).unwrap();
    let b = db.set(&vec![2u8; 5]).unwrap();
    assert_eq!((a, b), (0, 2));
    assert_eq!(db.update(a, 20, &vec![3u8; 30]).unwrap(), 0);
    assert_eq!(db.get(0, 30).unwrap(), vec![3u8; 30]);
    // released and taken again: the freed block starts the best-fitting run
    let moved = db.update(b, 5, &vec![4u8; 40]).unwrap();
    assert_eq!(moved, 2);
    assert_eq!(db.get(moved, 40).unwrap(), vec![4u8; 40]);
}

#[test]
fn datablock_errors() {
    let mut db = pool(1024, false);
    assert_eq!(db.free(5, 10), Err(Error::BlockDataSetFailed));
    assert_eq!(db.get(usize::MAX, 1), Err(Error::BlockDataGetFailed));
}

#[test]
fn mainblock_test_get() {
    let mut mb = main_block(1024);
    mb.truncate();
    let get_buf = mb.get(100);
    assert!(get_buf.is_ok());
    assert!(get_buf.unwrap().is_empty());
}

#[test]
fn test_get_and_set() {
    let mut mb = main_block(1024);
    mb.truncate();
    let list: Vec<(u8, usize, usize)> = vec![
        (3, 1024, 0),
        (1, 103, 1),
        (2, 1007, 2),
        (3, 1008, 3),
        (1, 2048, 5),
        (6, 6048, 4),
    ];
    for item in list {
        let set_buf = vec![item.0; item.1];
        match mb.set(item.2, &set_buf) {
            Ok(()) => {
                if let Ok(get_buf) = mb.get(item.2) {
                    assert_eq!(get_buf, set_buf);
                } else {
                    assert!(false);
                }
            }
            _ => assert!(false),
        }
    }
}

#[test]
fn mainblock_inline_record() {
    let mut mb = main_block(1024);
    mb.set(3, &vec![0xAB; 100]).unwrap();
    assert_eq!(mb.get(3).unwrap(), vec![0xAB; 100]);
    let h = mb.get_header(3).unwrap();
    assert_eq!((h.flag, h.size, h.pos), (FLAG_NORMAL, 100, 0));
    let bytes = mb.main_bytes();
    assert_eq!(bytes.len(), 3 * 1024 + 17 + 100);
    assert_eq!(&bytes[3 * 1024..3 * 1024 + 17], &[1, 0, 0, 0, 0, 0, 0, 0, 100, 0, 0, 0, 0, 0, 0, 0, 0]);
}

#[test]
fn mainblock_overflow_record() {
    let mut mb = main_block(1024);
    mb.set(5, &vec![0x01; 2048]).unwrap();
    assert_eq!(mb.get(5).unwrap(), vec![0x01; 2048]);
    let h = mb.get_header(5).unwrap();
    assert_eq!((h.flag, h.size, h.pos), (FLAG_OVERFLOW, 2048, 0));
    // the 1041-byte tail takes two blocks from index 0
    assert_eq!(mb.datablock().allocator().bits(), &vec![0b11000000]);
    assert_eq!(mb.datablock().get(0, 1041).unwrap(), vec![0x01; 1041]);
}

#[test]
fn mainblock_value_filling_the_record_stays_inline() {
    let mut mb = main_block(1024);
    mb.set(0, &vec![9u8; 1007]).unwrap();
    let h = mb.get_header(0).unwrap();
    assert_eq!((h.flag, h.size), (FLAG_NORMAL, 1007));
    assert_eq!(mb.datablock().allocator().len(), 0);
    assert_eq!(mb.get(0).unwrap(), vec![9u8; 1007]);
}

#[test]
fn mainblock_one_byte_more_spills_one_byte() {
    let mut mb = main_block(1024);
    let mut value = vec![9u8; 1007];
    value.push(42);
    mb.set(0, &value).unwrap();
    let h = mb.get_header(0).unwrap();
    assert_eq!((h.flag, h.size), (FLAG_OVERFLOW, 1008));
    assert_eq!(mb.datablock().get(h.pos as usize, 1).unwrap(), vec![42]);
    assert_eq!(mb.get(0).unwrap(), value);
}

#[test]
fn mainblock_empty_value_differs_from_deleted() {
    let mut mb = main_block(64);
    mb.set(2, &vec![]).unwrap();
    assert_eq!(mb.get(2).unwrap(), Vec::<u8>::new());
    assert_eq!(mb.get_header(2).unwrap().flag, FLAG_NORMAL);
    mb.del(2).unwrap();
    assert_eq!(mb.get(2).unwrap(), Vec::<u8>::new());
    assert_eq!(mb.get_header(2).unwrap().flag, FLAG_DEL);
}

#[test]
fn mainblock_shrink_and_delete_release_the_spill() {
    let mut mb = main_block(64);
    mb.set(1, &vec![5u8; 3000]).unwrap();
    assert_eq!(mb.datablock().allocator().bits(), &vec![0b11100000]);
    mb.set(1, &vec![6u8; 10]).unwrap();
    assert_eq!(mb.get_header(1).unwrap().flag, FLAG_NORMAL);
    assert_eq!(mb.datablock().allocator().bits(), &vec![0]);
    mb.set(1, &vec![7u8; 100]).unwrap();
    assert_eq!(mb.get(1).unwrap(), vec![7u8; 100]);
    mb.del(1).unwrap();
    assert_eq!(mb.datablock().allocator().bits(), &vec![0]);
    assert_eq!(mb.get(1).unwrap(), Vec::<u8>::new());
}

#[test]
fn mainblock_flush_records_the_checkpoint() {
    let mut mb = MainBlock::new(vec![], 64, pool(1024, true));
    mb.set(0, &vec![1u8; 100]).unwrap();
    assert_eq!(mb.checkpoint(), 0);
    let image = mb.flush_datablock(12);
    assert_eq!(mb.checkpoint(), 12);
    assert_eq!(image, vec![0x80, 0, 0, 0, 0, 0, 0, 0, 12]);
}

#[test]
fn disk_test_set() {
    let mut disk = MemFile::new(vec![]);
    disk.set(100, &vec![2u8; 10]);
    assert_eq!(disk.meta().size, 110);
}

#[test]
fn disk_test_get() {
    let mut disk = MemFile::new(vec![]);
    let buffer = vec![2u8; 10];
    disk.set(100, &buffer);
    assert_eq!(disk.get(100, 10), buffer);
}

#[test]
fn disk_test_truncate() {
    let mut disk = MemFile::new(vec![1, 2, 3]);
    disk.truncate();
    assert_eq!(disk.meta().size, 0);
}

#[test]
fn disk_test_append() {
    let mut disk = MemFile::new(vec![]);
    disk.set(100, &vec![2u8; 10]);
    disk.set(10, &vec![2u8; 10]);
    disk.append(&vec![3u8; 10]);
    assert_eq!(disk.meta().size, 120);
    assert_eq!(disk.get(110, 10), vec![3u8; 10]);
}

#[test]
fn disk_test_prepend() {
    let mut disk = MemFile::new(vec![]);
    disk.set(100, &vec![2u8; 10]);
    disk.set(10, &vec![2u8; 10]);
    disk.prepend(&vec![3u8; 10]);
    assert_eq!(disk.meta().size, 110);
    assert_eq!(disk.get(0, 10), vec![3u8; 10]);
}

#[test]
fn reading_past_the_end_gives_zeros() {
    let disk = MemFile::new(vec![1, 2]);
    assert_eq!(disk.get(1, 4), vec![2, 0, 0, 0]);
}
