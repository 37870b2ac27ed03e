use adaptive_radix::{Art, ArtKey};
use std::collections::HashMap;

struct XorShift(u64);

impl XorShift {
    fn next_u32(&mut self) -> u32 {
        let mut x = self.0;
        x ^= x << 13;
        x ^= x >> 7;
        x ^= x << 17;
        self.0 = x;
        (x >> 32) as u32
    }
}

fn random_pairs(seed: u64, n: usize) -> HashMap<u32, u32> {
    let mut rng = XorShift(seed);
    let mut data = HashMap::new();
    for _i in 0..n {
        data.insert(rng.next_u32(), rng.next_u32());
    }
    data
}

#[test]
fn art_test_add_and_find() {
    let mut art = Art::<u32, u32>::new();
    let data = random_pairs(0x9e37_79b9_7f4a_7c15, 100_000);
    for (key, val) in &data {
        art.insert(key.clone(), val.clone());
    }
    for (key, val) in &data {
        assert_eq!(val, art.find(key.clone()).unwrap());
    }
}

#[test]
fn test_add_and_delete() {
    let mut art = Art::<u32, u32>::new();
    let data = random_pairs(0x2545_f491_4f6c_dd1d, 100_000);
    for (key, val) in &data {
        art.insert(key.clone(), val.clone());
    }
    for (key, _val) in &data {
        art.delete(key.clone());
    }
    assert_eq!(0, art.bfs_count());
}

#[test]
fn empty_tree() {
    let mut art = Art::<u32, u32>::new();
    assert_eq!(art.find(10), None);
    art.delete(10);
    assert_eq!(art.find(10), None);
    assert_eq!(art.bfs_count(), 0);
}

#[test]
fn single_insert_then_find() {
    let mut art = Art::<u32, u32>::new();
    art.insert(10, 10);
    assert_eq!(art.find(10), Some(&10));
    assert_eq!(art.bfs_count(), 1);
}

#[test]
fn five_keys_grow_to_node16() {
    let mut art = Art::<u32, u32>::new();
    for k in [10u32, 20, 30, 40] {
        art.insert(k, k);
    }
    assert_eq!(art.root_layout(), Some((4, 4)));
    art.insert(50, 50);
    assert_eq!(art.root_layout(), Some((16, 5)));
    for k in [10u32, 20, 30, 40, 50] {
        assert_eq!(art.find(k), Some(&k));
    }
    assert_eq!(art.bfs_count(), 6);
}

#[test]
fn overwrite_keeps_one_node() {
    let mut art = Art::<u32, u32>::new();
    art.insert(10, 10);
    art.insert(10, 999);
    assert_eq!(art.find(10), Some(&999));
    assert_eq!(art.bfs_count(), 1);
}

#[test]
fn delete_then_reinsert() {
    let mut art = Art::<u32, u32>::new();
    art.insert(10, 10);
    art.insert(20, 20);
    art.insert(30, 30);
    art.delete(20);
    assert_eq!(art.find(20), None);
    assert_eq!(art.find(10), Some(&10));
    assert_eq!(art.find(30), Some(&30));
    art.insert(20, 21);
    assert_eq!(art.find(20), Some(&21));
}

#[test]
fn insert_then_delete_restores_count() {
    let mut art = Art::<u32, u32>::new();
    for k in [1u32, 2, 3, 300, 70_000] {
        art.insert(k, k);
    }
    let before = art.bfs_count();
    art.insert(65_537, 7);
    assert!(art.bfs_count() > before);
    art.delete(65_537);
    assert_eq!(art.bfs_count(), before);
    assert_eq!(art.find(65_537), None);
    for k in [1u32, 2, 3, 300, 70_000] {
        assert_eq!(art.find(k), Some(&k));
    }
}

#[test]
fn order_does_not_matter() {
    let keys: Vec<u32> = (0..200u32).map(|i| i.wrapping_mul(2_654_435_761)).collect();
    let mut forward = Art::<u32, u32>::new();
    let mut backward = Art::<u32, u32>::new();
    for k in keys.iter() {
        forward.insert(*k, k ^ 0x5555);
    }
    for k in keys.iter().rev() {
        backward.insert(*k, k ^ 0x5555);
    }
    for k in keys.iter() {
        assert_eq!(forward.find(*k), backward.find(*k));
        assert_eq!(forward.find(*k), Some(&(k ^ 0x5555)));
    }
    assert_eq!(forward.find(12345), None);
    assert_eq!(backward.find(12345), None);
}

#[test]
fn growth_and_shrink_through_all_variants() {
    let mut art = Art::<u32, u32>::new();
    for b in 0..256u32 {
        art.insert(0x0101_0100 | b, b);
    }
    assert_eq!(art.root_layout(), Some((256, 256)));
    assert_eq!(art.bfs_count(), 257);
    for b in 0..221u32 {
        art.delete(0x0101_0100 | b);
    }
    assert_eq!(art.root_layout(), Some((48, 35)));
    for b in 221..244u32 {
        art.delete(0x0101_0100 | b);
    }
    assert_eq!(art.root_layout(), Some((16, 12)));
    for b in 244..253u32 {
        art.delete(0x0101_0100 | b);
    }
    assert_eq!(art.root_layout(), Some((4, 3)));
    for b in 253..256u32 {
        assert_eq!(art.find(0x0101_0100 | b), Some(&b));
    }
    art.delete(0x0101_01fd);
    art.delete(0x0101_01fe);
    assert_eq!(art.root_layout(), None);
    assert_eq!(art.bfs_count(), 1);
    assert_eq!(art.find(0x0101_01ff), Some(&255));
}

#[test]
fn long_keys_use_the_leaf_for_the_hidden_prefix() {
    let mut art = Art::<Vec<u8>, u32>::new();
    let mut a = vec![7u8; 30];
    let mut b = vec![7u8; 30];
    a.push(1);
    b.push(2);
    art.insert(a.clone(), 1);
    art.insert(b.clone(), 2);
    assert_eq!(art.root_layout(), Some((4, 2)));
    let mut c = vec![7u8; 30];
    c[20] = 9;
    c.push(3);
    art.insert(c.clone(), 3);
    assert_eq!(art.find(a.clone()), Some(&1));
    assert_eq!(art.find(b.clone()), Some(&2));
    assert_eq!(art.find(c.clone()), Some(&3));
    let mut d = vec![7u8; 30];
    d.push(4);
    assert_eq!(art.find(d.clone()), None);
    art.delete(c.clone());
    assert_eq!(art.bfs_count(), 3);
    assert_eq!(art.find(a), Some(&1));
    assert_eq!(art.find(b), Some(&2));
    assert_eq!(art.find(c), None);
}

#[test]
fn string_and_signed_keys() {
    let mut words = Art::<String, u32>::new();
    words.insert("alpha!".to_string(), 1);
    words.insert("alpine".to_string(), 2);
    assert_eq!(words.find("alpha!".to_string()), Some(&1));
    assert_eq!(words.find("alpine".to_string()), Some(&2));
    assert_eq!(words.find("alpaca".to_string()), None);
    let mut signed = Art::<i32, i32>::new();
    signed.insert(-1, 1);
    signed.insert(1, 2);
    assert_eq!(signed.find(-1), Some(&1));
    assert_eq!(signed.find(1), Some(&2));
    assert_eq!(signed.bfs_count(), 3);
}

#[test]
fn key_bytes_are_big_endian() {
    assert_eq!(0x0102_0304u32.bytes(), vec![1, 2, 3, 4]);
    assert_eq!((-2i16).bytes(), vec![0xff, 0xfe]);
    assert_eq!(0x0102u16.bytes(), vec![1, 2]);
    assert_eq!(5u64.bytes(), vec![0, 0, 0, 0, 0, 0, 0, 5]);
    assert_eq!("ab".to_string().bytes(), vec![97, 98]);
}

#[test]
fn random_mix_matches_a_hash_map() {
    let mut rng = XorShift(0x1234_5678_9abc_def1);
    let mut art = Art::<u32, u32>::new();
    let mut model: HashMap<u32, u32> = HashMap::new();
    for _i in 0..20_000 {
        let key = rng.next_u32() % 5_000;
        let op = rng.next_u32() % 3;
        if op == 0 {
            art.delete(key);
            model.remove(&key);
        } else {
            let value = rng.next_u32();
            art.insert(key, value);
            model.insert(key, value);
        }
        assert_eq!(art.find(key), model.get(&key));
    }
    for key in 0..5_000u32 {
        assert_eq!(art.find(key), model.get(&key));
    }
    for key in 0..5_000u32 {
        art.delete(key);
    }
    assert_eq!(art.bfs_count(), 0);
}

#[test]
fn long_shared_prefixes_split_and_merge() {
    let mut rng = XorShift(0x0f0f_1e1e_2d2d_3c3c);
    let mut art = Art::<Vec<u8>, usize>::new();
    let mut model: HashMap<Vec<u8>, usize> = HashMap::new();
    for i in 0..3_000usize {
        let mut key = vec![42u8; 24];
        let pos = (rng.next_u32() % 24) as usize;
        key[pos] = (rng.next_u32() % 3) as u8;
        key[(pos + 7) % 24] = (rng.next_u32() % 2) as u8;
        if rng.next_u32() % 4 == 0 {
            art.delete(key.clone());
            model.remove(&key);
        } else {
            art.insert(key.clone(), i);
            model.insert(key.clone(), i);
        }
        assert_eq!(art.find(key.clone()), model.get(&key));
    }
    for (key, value) in &model {
        assert_eq!(art.find(key.clone()), Some(value));
    }
    let keys: Vec<Vec<u8>> = model.keys().cloned().collect();
    for key in keys {
        art.delete(key.clone());
        assert_eq!(art.find(key), None);
    }
    assert_eq!(art.bfs_count(), 0);
}

#[test]
fn word_size_keys() {
    let width = std::mem::size_of::<usize>();
    assert_eq!(1usize.bytes().len(), width);
    assert_eq!(*1usize.bytes().last().unwrap(), 1);
    assert_eq!((-1isize).bytes(), vec![0xff; width]);
    let mut art = Art::<usize, usize>::new();
    for k in 0..100usize {
        art.insert(k * 7, k);
    }
    for k in 0..100usize {
        assert_eq!(art.find(k * 7), Some(&k));
    }
    assert_eq!(art.find(1), None);
}

#[test]
fn delete_of_absent_key_changes_nothing() {
    let mut art = Art::<u32, u32>::new();
    for k in 0..20u32 {
        art.insert(k, k);
    }
    let before = art.bfs_count();
    let layout = art.root_layout();
    art.delete(1000);
    assert_eq!(art.bfs_count(), before);
    assert_eq!(art.root_layout(), layout);
    for k in 0..20u32 {
        assert_eq!(art.find(k), Some(&k));
    }
}
