use mineral::bitmap;
use mineral::bytemap;
use mineral::state::MemFile;

/// Applies the write that `flush` names for a change of `size` bits at `index`.
fn persist(file: &mut MemFile, map: &bitmap::BitMap, index: usize, size: usize) {
    let (pos, bytes) = map.flush(index, size);
    file.set(pos, &bytes);
}

#[test]
fn bytemap_test_new_bitmap() {
    let mut map = bytemap::BitMap::new(vec![]);
    map.reset();
    assert_eq!(map.len(), 0);
    assert_eq!(map.bits().len(), 0);
    let index = map.malloc(100);
    assert_eq!(index, 0);
    map.free(3, 100);
    let mut map = bytemap::BitMap::new(map.flush());
    let index = map.malloc(5);
    assert_eq!(index, 3);
    let index = map.malloc(10);
    assert_eq!(index, 8);
    assert_eq!(map.len(), 104);
}

#[test]
fn test_new_bitmap() {
    // the allocator is reloaded from what its flushes wrote
    let mut file = MemFile::new(vec![]);
    let mut map = bitmap::BitMap::new(vec![]);
    map.truncate();
    assert_eq!(map.len(), 0);
    assert_eq!(map.bits().len(), 0);
    let index = map.malloc(100);
    persist(&mut file, &map, index, 100);
    assert_eq!(index, 0);
    map.free(3, 10);
    persist(&mut file, &map, 3, 10);
    map.free(40, 60);
    persist(&mut file, &map, 40, 60);
    map.free(9, 10);
    persist(&mut file, &map, 9, 10);
    let mut map = bitmap::BitMap::new(file.bytes().clone());
    // free runs are now [3, 19) and [40, 104): the shorter one fits best
    let index = map.malloc(5);
    assert_eq!(index, 3);
    let index = map.malloc(10);
    assert_eq!(index, 8);
    assert_eq!(map.len(), 104);
}

#[test]
fn bytemap_test_get_bit() {
    let mut map = bytemap::BitMap::new(vec![]);
    map.reset();
    assert_eq!(map.get_bit(0b00000001, 7), 1);
    assert_eq!(map.get_bit(0b00000010, 6), 1);
    assert_eq!(map.get_bit(0b00000100, 5), 1);
    assert_eq!(map.get_bit(0b10000000, 0), 1);
    assert_eq!(map.get_bit(0b10000000, 1), 0);
}

#[test]
fn test_get_bit() {
    let mut map = bitmap::BitMap::new(vec![]);
    map.truncate();
    assert_eq!(map.get_bit(0b00000001, 7), 1);
    assert_eq!(map.get_bit(0b00000010, 6), 1);
    assert_eq!(map.get_bit(0b00000100, 5), 1);
    assert_eq!(map.get_bit(0b10000000, 0), 1);
    assert_eq!(map.get_bit(0b10000000, 1), 0);
}

#[test]
fn bytemap_test_find_next_n_zeros() {
    let map = bytemap::BitMap::new(vec![0b11110000]);
    assert_eq!(map.find_next_n_zeros(4), Some(4));
}

#[test]
fn test_find_next_n_zeros() {
    let map = bitmap::BitMap::new(vec![0b11110000]);
    assert_eq!(map.find_next_n_zeros(4), Some(4));
}

#[test]
fn bytemap_test_malloc_and_free() {
    let mut map = bytemap::BitMap::new(vec![]);
    let index = map.malloc(4);
    assert_eq!(index, 0);
    map.free(index, 4);
    assert_eq!(map.bits()[0], 0);
    map.reset();
}

#[test]
fn test_malloc_and_free() {
    let mut map = bitmap::BitMap::new(vec![]);
    map.truncate();
    let index = map.malloc(4);
    assert_eq!(index, 0);
    map.free(index, 4);
    assert_eq!(map.bits()[0], 0);
}

#[test]
fn malloc_then_free_leaves_bits_unchanged() {
    // a free run fits: the bits come back exactly
    let mut map = bitmap::BitMap::new(vec![0b11000011, 0b00001111]);
    let before = map.bits().clone();
    let index = map.malloc(3);
    assert_eq!(index, 2);
    assert_ne!(map.bits(), &before);
    map.free(index, 3);
    assert_eq!(map.bits(), &before);

    // nothing fits: the map grows, and freeing leaves only clear bits added
    let mut map = bitmap::BitMap::new(vec![0b11111100]);
    let index = map.malloc(10);
    assert_eq!(index, 6);
    assert_eq!(map.bits(), &vec![0xFF, 0xFF]);
    map.free(index, 10);
    assert_eq!(map.bits(), &vec![0b11111100, 0]);
}

#[test]
fn malloc_prefers_smallest_adequate_run() {
    // runs: [1, 8) of 7, [12, 15) of 3, [20, 24) of 4
    let mut map = bitmap::BitMap::new(vec![0b10000000, 0b11110001, 0b11110000]);
    assert_eq!(map.malloc(4), 20);
    assert_eq!(map.malloc(3), 12);
    assert_eq!(map.malloc(3), 1);
}

#[test]
fn malloc_ties_go_to_the_first_run() {
    let mut map = bitmap::BitMap::new(vec![0b10001000, 0b11111000]);
    assert_eq!(map.malloc(3), 1);
    assert_eq!(map.malloc(3), 5);
}

#[test]
fn malloc_zero_bits_takes_nothing() {
    let mut map = bitmap::BitMap::new(vec![0xFF]);
    assert_eq!(map.malloc(0), 8);
    assert_eq!(map.bits(), &vec![0xFF]);
}

#[test]
fn flush_names_the_touched_bytes() {
    let mut map = bitmap::BitMap::new(vec![]);
    let index = map.malloc(20);
    assert_eq!(index, 0);
    let (pos, bytes) = map.flush(8, 12);
    assert_eq!(pos, 1);
    assert_eq!(bytes, vec![0xFF, 0xF0]);
}

#[test]
fn flush_covers_a_run_that_straddles_bytes() {
    let mut map = bitmap::BitMap::new(vec![0b11111110, 0b01111111]);
    assert_eq!(map.malloc(2), 7);
    let (pos, bytes) = map.flush(7, 2);
    assert_eq!(pos, 0);
    assert_eq!(bytes, vec![0xFF, 0xFF]);
}

#[test]
fn first_fit_free_clears_bits() {
    let mut map = bytemap::BitMap::new(vec![0b11110000]);
    map.free(2, 4);
    assert_eq!(map.bits(), &vec![0b11000000]);
}

#[test]
fn flush_all_appends_the_version() {
    let mut map = bitmap::BitMap::new(vec![0xAA]);
    assert_eq!(map.checkpoint(), 0);
    let image = map.flush_all(258);
    assert_eq!(image, vec![0xAA, 0, 0, 0, 0, 0, 0, 1, 2]);
    assert_eq!(map.checkpoint(), 258);
    let loaded = bitmap::BitMap::load(&image);
    assert_eq!(loaded.checkpoint(), 258);
    assert_eq!(loaded.bits(), &vec![0xAA]);
}

#[test]
fn allocator_over_existing_bits() {
    // runs [1, 3) and [8, 16): two bits fit best in the first
    let mut map = bitmap::BitMap::new(vec![0b10011111, 0b00000000]);
    assert_eq!(map.malloc(2), 1);
    assert_eq!(map.malloc(2), 8);
    assert_eq!(map.bits(), &vec![0xFF, 0b11000000]);
}
