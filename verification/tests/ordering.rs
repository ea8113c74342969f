use rgb_containers::canon::SortedMap;
use rgb_containers::encoding::{append_bytes, write_collection, write_len_prefix, Width};
use rgb_containers::order::{compare_bytes, Order};

fn keys_of(m: &SortedMap<u32>) -> Vec<Vec<u8>> {
    let mut keys = Vec::new();
    for i in 0..m.len() {
        keys.push(m.key_at(i).clone());
    }
    keys
}

#[test]
fn compare_orders_by_first_difference() {
    assert!(matches!(compare_bytes(&[1, 2, 3], &[1, 2, 4]), Order::Less));
    assert!(matches!(compare_bytes(&[1, 3, 0], &[1, 2, 9]), Order::Greater));
    assert!(matches!(compare_bytes(&[7, 7], &[7, 7]), Order::Equal));
}

#[test]
fn compare_puts_prefix_first() {
    assert!(matches!(compare_bytes(&[], &[0]), Order::Less));
    assert!(matches!(compare_bytes(&[5, 6], &[5, 6, 0]), Order::Less));
    assert!(matches!(compare_bytes(&[5, 6, 0], &[5, 6]), Order::Greater));
    assert!(matches!(compare_bytes(&[], &[]), Order::Equal));
}

#[test]
fn compare_reads_bytes_unsigned() {
    assert!(matches!(compare_bytes(&[0x7f], &[0x80]), Order::Less));
    assert!(matches!(compare_bytes(&[0xff], &[0x00, 0xff]), Order::Greater));
}

#[test]
fn sorted_map_keeps_keys_ascending() {
    let mut m: SortedMap<u32> = SortedMap::new();
    m.insert(vec![3], 30);
    m.insert(vec![1], 10);
    m.insert(vec![2, 0], 20);
    m.insert(vec![2], 21);
    m.insert(vec![], 0);
    assert_eq!(m.len(), 5);
    assert_eq!(keys_of(&m), vec![vec![], vec![1], vec![2], vec![2, 0], vec![3]]);
    assert_eq!(*m.value_at(0), 0);
    assert_eq!(*m.value_at(2), 21);
    assert_eq!(*m.value_at(3), 20);
}

#[test]
fn sorted_map_replaces_on_equal_key() {
    let mut m: SortedMap<u32> = SortedMap::new();
    m.insert(vec![9, 9], 1);
    m.insert(vec![9, 9], 2);
    assert_eq!(m.len(), 1);
    assert_eq!(m.get(&[9, 9]), Some(&2));
}

#[test]
fn sorted_map_get_and_contains() {
    let mut m: SortedMap<u32> = SortedMap::new();
    assert_eq!(m.get(&[1]), None);
    assert!(!m.contains_key(&[1]));
    for k in 0..50u8 {
        m.insert(vec![k.wrapping_mul(37)], k as u32);
    }
    assert_eq!(m.len(), 50);
    for k in 0..50u8 {
        assert_eq!(m.get(&[k.wrapping_mul(37)]), Some(&(k as u32)));
        assert!(m.contains_key(&[k.wrapping_mul(37)]));
    }
    assert_eq!(m.get(&[1, 0]), None);
    assert!(!m.contains_key(&[]));
}

#[test]
fn sorted_map_is_the_same_for_any_insertion_order() {
    let items: Vec<(Vec<u8>, u32)> =
        vec![(vec![4], 4), (vec![0, 1], 1), (vec![200], 200), (vec![0], 0), (vec![4, 4], 44)];
    let mut forward: SortedMap<u32> = SortedMap::new();
    for (k, v) in items.iter() {
        forward.insert(k.clone(), *v);
    }
    let mut backward: SortedMap<u32> = SortedMap::new();
    for (k, v) in items.iter().rev() {
        backward.insert(k.clone(), *v);
    }
    assert_eq!(keys_of(&forward), keys_of(&backward));
    for i in 0..forward.len() {
        assert_eq!(forward.value_at(i), backward.value_at(i));
    }
}

#[test]
fn append_bytes_adds_at_the_end() {
    let mut out = vec![1u8, 2];
    append_bytes(&mut out, &[3, 4, 5]);
    append_bytes(&mut out, &[]);
    assert_eq!(out, vec![1, 2, 3, 4, 5]);
}

#[test]
fn width_limits() {
    assert_eq!(Width::Tiny.limit(), 255);
    assert_eq!(Width::Small.limit(), 65535);
    assert_eq!(Width::Large.limit(), 4294967295);
}

#[test]
fn len_prefix_is_little_endian() {
    let mut out = Vec::new();
    write_len_prefix(Width::Tiny, 200, &mut out);
    assert_eq!(out, vec![200]);
    let mut out = Vec::new();
    write_len_prefix(Width::Small, 0x0102, &mut out);
    assert_eq!(out, vec![0x02, 0x01]);
    let mut out = Vec::new();
    write_len_prefix(Width::Large, 0x01020304, &mut out);
    assert_eq!(out, vec![0x04, 0x03, 0x02, 0x01]);
    let mut out = vec![9];
    write_len_prefix(Width::Large, 0, &mut out);
    assert_eq!(out, vec![9, 0, 0, 0, 0]);
}

#[test]
fn collection_is_written_in_key_order() {
    let mut m: SortedMap<Vec<u8>> = SortedMap::new();
    m.insert(vec![2], vec![0xb0, 0xb1]);
    m.insert(vec![1], vec![0xa0]);
    m.insert(vec![3], vec![]);
    let mut out = vec![0xee];
    write_collection(Width::Small, &m, &mut out);
    assert_eq!(out, vec![0xee, 3, 0, 0xa0, 0xb0, 0xb1]);
}

#[test]
fn empty_collection_is_its_prefix() {
    let m: SortedMap<Vec<u8>> = SortedMap::new();
    let mut out = Vec::new();
    write_collection(Width::Tiny, &m, &mut out);
    write_collection(Width::Small, &m, &mut out);
    write_collection(Width::Large, &m, &mut out);
    assert_eq!(out, vec![0, 0, 0, 0, 0, 0, 0]);
}
