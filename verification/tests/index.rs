use bijective_map::bucket::{Bucket, LeftSide, RightSide, Side};
use bijective_map::hashing::{hash_to_index, keys_equal};
use bijective_map::probe::{delete_mapping, fill_empty, insert_mapping, is_displaced, probe_index};
use bijective_map::{BiMap, EMPTY_SLOT};
use std::hash::{BuildHasher, Hasher};

const E: usize = EMPTY_SLOT;

/// Hashes a value to its lowest byte.
struct LowByte {
    state: u8,
}

impl Hasher for LowByte {
    fn finish(&self) -> u64 {
        self.state as u64
    }

    fn write(&mut self, bytes: &[u8]) {
        self.state = bytes[0];
    }
}

struct LowByteBuilder;

impl BuildHasher for LowByteBuilder {
    type Hasher = LowByte;

    fn build_hasher(&self) -> LowByte {
        LowByte { state: 0 }
    }
}

/// Buckets with the given left values; the right value of each is its left
/// value plus one.
fn buckets_of(lefts: &[usize]) -> Vec<Bucket<usize, usize>> {
    lefts.iter().map(|&left| Bucket { left, right: left + 1 }).collect()
}

#[test]
fn sides_pick_their_value() {
    let bucket = Bucket { left: 3u8, right: "three" };
    assert_eq!(<LeftSide as Side<u8, &str, u8>>::key(&bucket), &3);
    assert_eq!(<RightSide as Side<u8, &str, &str>>::key(&bucket), &"three");
}

#[test]
fn empty_slot_is_the_largest_number() {
    assert_eq!(EMPTY_SLOT, usize::MAX);
}

#[test]
fn hash_to_index_takes_the_digest_modulo_the_capacity() {
    let builder = LowByteBuilder;
    assert_eq!(hash_to_index(&builder, &5usize, 8), 5);
    assert_eq!(hash_to_index(&builder, &13usize, 8), 5);
    assert_eq!(hash_to_index(&builder, &13usize, 7), 6);
    assert_eq!(hash_to_index(&builder, &255usize, 10), 5);
    assert_eq!(hash_to_index(&builder, &256usize, 10), 0);
    assert_eq!(hash_to_index(&builder, &77usize, 1), 0);
}

/// Hashes a value to three times its lowest byte plus one.
struct Tripling {
    state: u64,
}

impl Hasher for Tripling {
    fn finish(&self) -> u64 {
        self.state
    }

    fn write(&mut self, bytes: &[u8]) {
        self.state = 3 * bytes[0] as u64 + 1;
    }
}

struct TriplingBuilder;

impl BuildHasher for TriplingBuilder {
    type Hasher = Tripling;

    fn build_hasher(&self) -> Tripling {
        Tripling { state: 0 }
    }
}

#[test]
fn hash_to_index_asks_the_builder() {
    let builder = TriplingBuilder;
    assert_eq!(hash_to_index(&builder, &5usize, 100), 16);
    assert_eq!(hash_to_index(&builder, &5usize, 7), 2);
    assert_eq!(hash_to_index(&builder, &0usize, 7), 1);
    assert_eq!(hash_to_index(&builder, &200usize, 1000), 601);
    let map = BiMap::<usize, usize, _, _>::with_hashers(10, TriplingBuilder, LowByteBuilder);
    assert_eq!(map.get_ideal_index_left(&4), 3);
    assert_eq!(map.get_ideal_index_right(&4), 4);
    assert_eq!(map.hasher_left().hash_one(4usize), 13);
    assert_eq!(map.hasher_right().hash_one(4usize), 4);
}

#[test]
fn keys_equal_is_the_keys_own_equality() {
    assert!(keys_equal(&3u32, &3u32));
    assert!(!keys_equal(&3u32, &4u32));
    assert!(keys_equal(&"a".to_string(), &"a".to_string()));
    assert!(!keys_equal(&"a".to_string(), &"b".to_string()));
}

#[test]
fn fill_empty_empties_every_slot() {
    let mut index = vec![3, E, 0, 1, 2];
    fill_empty(&mut index);
    assert_eq!(index, vec![E, E, E, E, E]);
    let mut index: Vec<usize> = Vec::new();
    fill_empty(&mut index);
    assert!(index.is_empty());
}

#[test]
fn insert_mapping_into_an_empty_slot() {
    let mut index = vec![E, 5, 7, E];
    insert_mapping(&mut index, 3, 9);
    assert_eq!(index, vec![E, 5, 7, 9]);
}

#[test]
fn insert_mapping_shifts_the_run_forward() {
    let mut index = vec![E, 5, 7, E, 2];
    insert_mapping(&mut index, 1, 9);
    assert_eq!(index, vec![E, 9, 5, 7, 2]);
}

#[test]
fn insert_mapping_wraps_around() {
    let mut index = vec![7, E, E, 5];
    insert_mapping(&mut index, 3, 9);
    assert_eq!(index, vec![5, 7, E, 9]);
}

#[test]
fn is_displaced_compares_home_and_slot() {
    let builder = LowByteBuilder;
    let buckets = buckets_of(&[1, 9, 3]);
    let index = vec![E, 0, 1, 2, E, E, E, E];
    assert!(!is_displaced::<_, _, _, LeftSide, _>(&index, &builder, &buckets, 0));
    assert!(!is_displaced::<_, _, _, LeftSide, _>(&index, &builder, &buckets, 1));
    assert!(is_displaced::<_, _, _, LeftSide, _>(&index, &builder, &buckets, 2));
    assert!(!is_displaced::<_, _, _, LeftSide, _>(&index, &builder, &buckets, 3));
    // by the right values 2, 10, 4 the homes are 2, 2, 4
    assert!(is_displaced::<_, _, _, RightSide, _>(&index, &builder, &buckets, 1));
    assert!(is_displaced::<_, _, _, RightSide, _>(&index, &builder, &buckets, 3));
    let index = vec![E, E, 0, 1, 2, E, E, E];
    assert!(!is_displaced::<_, _, _, RightSide, _>(&index, &builder, &buckets, 2));
    assert!(is_displaced::<_, _, _, RightSide, _>(&index, &builder, &buckets, 3));
    assert!(!is_displaced::<_, _, _, RightSide, _>(&index, &builder, &buckets, 4));
}

#[test]
fn probe_index_finds_a_key_or_its_insertion_point() {
    let builder = LowByteBuilder;
    // homes of the left values: 1, 1, 2, 1
    let buckets = buckets_of(&[1, 9, 2, 17]);
    let index = vec![E, 0, 1, 3, 2, E, E, E];
    let probe = |key: usize| probe_index::<_, _, _, LeftSide, _>(&key, &index, &builder, &buckets, 8);
    assert_eq!(probe(1), Ok(1));
    assert_eq!(probe(9), Ok(2));
    assert_eq!(probe(17), Ok(3));
    assert_eq!(probe(2), Ok(4));
    // an empty home
    assert_eq!(probe(8), Err(0));
    assert_eq!(probe(5), Err(5));
    // behind every key with the same home
    assert_eq!(probe(25), Err(4));
    assert_eq!(probe(10), Err(5));
    // past keys that are further from their homes
    assert_eq!(probe(3), Err(5));
    assert_eq!(probe(4), Err(5));
    // by the right values 2, 10, 3, 18 the homes are 2, 2, 3, 2
    let index = vec![E, E, 0, 1, 3, 2, E, E];
    let probe = |key: usize| probe_index::<_, _, _, RightSide, _>(&key, &index, &builder, &buckets, 8);
    assert_eq!(probe(2), Ok(2));
    assert_eq!(probe(18), Ok(4));
    assert_eq!(probe(3), Ok(5));
    assert_eq!(probe(26), Err(5));
    assert_eq!(probe(1), Err(1));
}

#[test]
fn probe_index_wraps_around() {
    let builder = LowByteBuilder;
    let buckets = buckets_of(&[6, 13, 20]);
    let index = vec![1, 2, E, E, E, E, 0];
    let probe = |key: usize| probe_index::<_, _, _, LeftSide, _>(&key, &index, &builder, &buckets, 7);
    assert_eq!(probe(6), Ok(6));
    assert_eq!(probe(13), Ok(0));
    assert_eq!(probe(20), Ok(1));
    assert_eq!(probe(27), Err(2));
    // home 0: the residents of slots 0 and 1 are further from their home
    assert_eq!(probe(7), Err(2));
    // home 1
    assert_eq!(probe(1), Err(2));
    assert_eq!(probe(5), Err(5));
}

#[test]
fn delete_mapping_shifts_displaced_buckets_backward() {
    let builder = LowByteBuilder;
    let buckets = buckets_of(&[1, 9, 17]);
    let mut index = vec![E, 0, 1, 2, E, E, E, E];
    delete_mapping::<_, _, _, LeftSide, _>(&mut index, &builder, &buckets, 1);
    assert_eq!(index, vec![E, 1, 2, E, E, E, E, E]);
    delete_mapping::<_, _, _, LeftSide, _>(&mut index, &builder, &buckets, 2);
    assert_eq!(index, vec![E, 1, E, E, E, E, E, E]);
    delete_mapping::<_, _, _, LeftSide, _>(&mut index, &builder, &buckets, 1);
    assert_eq!(index, vec![E, E, E, E, E, E, E, E]);
    // by the right values 2, 10, 18 every home is 2
    let mut index = vec![E, E, 2, 0, 1, E, E, E];
    delete_mapping::<_, _, _, RightSide, _>(&mut index, &builder, &buckets, 2);
    assert_eq!(index, vec![E, E, 0, 1, E, E, E, E]);
}

#[test]
fn delete_mapping_stops_at_a_bucket_at_home() {
    let builder = LowByteBuilder;
    let buckets = buckets_of(&[1, 9, 3, 11]);
    let mut index = vec![E, 0, 1, 2, 3, E, E, E];
    delete_mapping::<_, _, _, LeftSide, _>(&mut index, &builder, &buckets, 1);
    assert_eq!(index, vec![E, 1, E, 2, 3, E, E, E]);
}

#[test]
fn delete_mapping_wraps_around() {
    let builder = LowByteBuilder;
    let buckets = buckets_of(&[7, 15, 23]);
    let mut index = vec![1, 2, E, E, E, E, E, 0];
    delete_mapping::<_, _, _, LeftSide, _>(&mut index, &builder, &buckets, 7);
    assert_eq!(index, vec![2, E, E, E, E, E, E, 1]);
}

#[test]
fn robin_hood_places_by_probe_distance() {
    let mut map = BiMap::with_hashers(8, LowByteBuilder, LowByteBuilder);
    // homes of the left values: 1, 1, 2, 1
    map.insert(1usize, 100usize);
    map.insert(9, 101);
    map.insert(2, 102);
    assert_eq!(map.left_index(), &vec![E, 0, 1, 2, E, E, E, E]);
    // a third key with home 1 goes before the key with home 2
    map.insert(17, 103);
    assert_eq!(map.left_index(), &vec![E, 0, 1, 3, 2, E, E, E]);
    assert_eq!(map.get_ideal_index_left(&17), 1);
    assert_eq!(map.get_ideal_index_right(&103), 7);
    assert_eq!(map.lookup_index_left(&17), Ok(3));
    assert_eq!(map.lookup_index_left(&2), Ok(4));
    // an absent key with home 2 would go behind the key with home 2
    assert_eq!(map.lookup_index_left(&10), Err(5));
    // an absent key with home 1 would go behind the last key with home 1
    assert_eq!(map.lookup_index_left(&25), Err(4));
    // an absent key with home 3 passes the keys that are further from home
    assert_eq!(map.lookup_index_left(&3), Err(5));
    assert_eq!(map.lookup_index_left(&0), Err(0));
    assert_eq!(map.lookup_index_right(&100), Ok(4));
    assert_eq!(map.lookup_index_right(&200), Err(0));
    for (left, right) in [(1usize, 100usize), (9, 101), (2, 102), (17, 103)] {
        assert_eq!(map.get_right(&left), Some(&right));
        assert_eq!(map.get_left(&right), Some(&left));
    }
    // removal closes the gap
    assert_eq!(map.remove_left(&1), Some(100));
    assert_eq!(map.left_index(), &vec![E, 1, 0, 2, E, E, E, E]);
    assert_eq!(map.data()[0], Bucket { left: 17, right: 103 });
}

#[test]
fn probe_distance_wraps_with_the_ring() {
    // seven slots: not a power of two
    let mut map = BiMap::with_hashers(7, LowByteBuilder, LowByteBuilder);
    map.insert(6usize, 0usize);
    map.insert(13, 1);
    map.insert(20, 2);
    assert_eq!(map.left_index(), &vec![1, 2, E, E, E, E, 0]);
    // home 0: the keys with home 6 are further from home at slots 0 and 1
    map.insert(7, 3);
    assert_eq!(map.left_index(), &vec![1, 2, 3, E, E, E, 0]);
    assert_eq!(map.lookup_index_left(&14), Err(3));
    assert_eq!(map.lookup_index_left(&27), Err(2));
    for (left, right) in [(6usize, 0usize), (13, 1), (20, 2), (7, 3)] {
        assert_eq!(map.get_right(&left), Some(&right));
        assert_eq!(map.get_left(&right), Some(&left));
    }
    assert_eq!(map.remove_left(&6), Some(0));
    // the keys with home 6 move back; the key at distance 2 from home 0 too
    assert_eq!(map.left_index(), &vec![2, 0, E, E, E, E, 1]);
    assert_eq!(map.get_right(&7), Some(&3));
    assert_eq!(map.get_right(&13), Some(&1));
    assert_eq!(map.get_right(&20), Some(&2));
}

#[test]
fn resize_keeps_slots_of_the_store() {
    let mut map = BiMap::with_hashers(8, LowByteBuilder, LowByteBuilder);
    map.insert(1usize, 5usize);
    map.insert(9, 6);
    map.insert(2, 7);
    map.resize(16);
    assert_eq!(map.current_capacity(), 16);
    assert_eq!(map.data()[0], Bucket { left: 1, right: 5 });
    assert_eq!(map.data()[1], Bucket { left: 9, right: 6 });
    assert_eq!(map.data()[2], Bucket { left: 2, right: 7 });
    let mut expected = vec![E; 16];
    expected[1] = 0;
    expected[9] = 1;
    expected[2] = 2;
    assert_eq!(map.left_index(), &expected);
    map.grow();
    assert_eq!(map.current_capacity(), 32);
    assert_eq!(map.get_right(&9), Some(&6));
    assert_eq!(map.get_left(&7), Some(&2));
}
