use mineral::bitmap::BitMap;
use mineral::cbf::Cbf;
use mineral::datablock::DataBlock;
use mineral::mainblock::MainBlock;
use mineral::serve::{BlockOp, Serve, BLOCK_OP_DEL, BLOCK_OP_SET};
use mineral::wal::Wal;

fn serve() -> Serve {
    let pool = DataBlock::new(vec![], BitMap::new(vec![]), 1024, true);
    let mb = MainBlock::new(vec![], 1024, pool);
    Serve::new(mb, Wal::new(vec![]), 1024 * 1024 * 50)
}

#[test]
fn insert_test() {
    let mut cbf = Cbf::new(1024);
    let mut list: Vec<(usize, usize, Vec<u8>)> = vec![];
    for i in 0..100 {
        let size = (i * 31) % 100;
        list.push((i as usize, i as usize, vec![(i + 1) as u8; size]));
    }
    for item in list.clone() {
        cbf.insert(item.0, item.1, item.2).unwrap();
    }
    for item in list {
        let a = cbf.get(item.0);
        assert!(a.is_some());
        assert_eq!(a.unwrap(), item.2);
    }
}

#[test]
fn latest_insert_wins_until_its_page_is_popped() {
    let mut cbf = Cbf::new(1024);
    cbf.insert(1, 7, b"a".to_vec()).unwrap();
    cbf.insert(2, 7, b"b".to_vec()).unwrap();
    assert_eq!(cbf.get(7), Some(b"b".to_vec()));
    assert!(cbf.pop_first_page().is_none());
    assert_eq!(cbf.get(7), Some(b"b".to_vec()));
    let (_, page) = cbf.pop_first_page().unwrap();
    assert_eq!(page.get(7), Some(&b"b".to_vec()));
    assert_eq!(page.max_version, 2);
    assert_eq!(cbf.get(7), None);
    assert!(cbf.pop_first_page().is_none());
}

#[test]
fn newer_pages_shadow_older_ones() {
    let mut cbf = Cbf::new(4);
    cbf.insert(1, 1, vec![1, 1, 1]).unwrap();
    cbf.insert(2, 1, vec![2, 2, 2]).unwrap();
    cbf.insert(3, 2, vec![3]).unwrap();
    assert_eq!(cbf.get(1), Some(vec![2, 2, 2]));
    assert_eq!(cbf.get(2), Some(vec![3]));
    let (no, page) = cbf.pop_first_page().unwrap();
    assert_eq!(no, 0);
    assert_eq!(page.get(1), Some(&vec![1, 1, 1]));
    assert_eq!(cbf.get(1), Some(vec![2, 2, 2]));
}

#[test]
fn test_byte() {
    let mv = [0, 0, 0, 0, 0, 0, 0, 1];
    assert_eq!(u64::from_be_bytes(mv), 1);
    match BlockOp::decode(&vec![BLOCK_OP_DEL, 0, 0, 0, 0, 0, 0, 0, 1]) {
        BlockOp::Del(pos) => assert_eq!(pos, 1),
        _ => panic!("expected a delete"),
    }
}

#[test]
fn block_op_encoding() {
    let set = BlockOp::encode_from(BLOCK_OP_SET, 258, vec![7, 8]);
    assert_eq!(set, vec![1, 0, 0, 0, 0, 0, 0, 1, 2, 7, 8]);
    let del = BlockOp::encode_from(BLOCK_OP_DEL, 258, vec![7, 8]);
    assert_eq!(del, vec![3, 0, 0, 0, 0, 0, 0, 1, 2]);
    match BlockOp::decode(&set) {
        BlockOp::Put(pos, data) => {
            assert_eq!(pos, 258);
            assert_eq!(data, vec![7, 8]);
        }
        _ => panic!("expected a write"),
    }
    assert_eq!(BlockOp::get_pos(BlockOp::decode(&del)), 258);
}

#[test]
fn set_test() {
    let mut serve = serve();
    let mut list: Vec<(usize, Vec<u8>)> = vec![];
    for i in 100..500 {
        let size = (i * 13) % 100;
        list.push((i as usize, vec![(i + 1) as u8; size]));
    }
    for item in list.clone() {
        serve.set(item.0, item.1).unwrap();
    }
    for item in list {
        let res = serve.get(item.0).unwrap();
        assert_eq!(res, item.1);
    }
}

#[test]
fn test_del() {
    let mut serve = serve();
    serve.del(10).unwrap();
    let del = serve.get(10);
    assert_eq!(del.unwrap(), Vec::<u8>::new());
}

#[test]
fn flushed_writes_reach_the_main_block() {
    let mut serve = serve();
    serve.set(3, vec![5u8; 2000]).unwrap();
    serve.set(4, vec![6u8; 10]).unwrap();
    serve.del(4).unwrap();
    // the first pass retires the active page, the second flushes it
    assert!(serve.flush_once().unwrap().is_none());
    let (image, _) = serve.flush_once().unwrap().unwrap();
    assert_eq!(&image[image.len() - 8..], &[0, 0, 0, 0, 0, 0, 0, 3]);
    assert_eq!(serve.mainblock().get(3).unwrap(), vec![5u8; 2000]);
    assert_eq!(serve.mainblock().get(4).unwrap(), Vec::<u8>::new());
    assert_eq!(serve.get(3).unwrap(), vec![5u8; 2000]);
}

#[test]
fn replay_rebuilds_the_buffer() {
    let mut first = serve();
    first.set(8, vec![1, 2, 3]).unwrap();
    let wal = first.wal();
    let mut logs = vec![];
    for i in 0..wal.versions().len() {
        let (v, bytes) = wal.segment_bytes(i);
        logs.push(mineral::wal::Wlog::new(v, bytes));
    }
    let pool = DataBlock::new(vec![], BitMap::new(vec![]), 1024, true);
    let mb = MainBlock::new(vec![], 1024, pool);
    let again = Serve::new(mb, Wal::new(logs), 1024);
    assert_eq!(again.get(8).unwrap(), vec![1, 2, 3]);
}
