use stake_bot::keys::{Key, KeyMap, Pubkey, Relation};

fn key(first: u8, last: u8) -> Pubkey {
    let mut bytes = [0; 32];
    bytes[0] = first;
    bytes[31] = last;
    Key { bytes }
}

#[test]
fn keys_are_ordered_by_their_bytes() {
    assert_eq!(key(1, 0).relation(&key(1, 0)), Relation::Same);
    assert_eq!(key(1, 9).relation(&key(2, 0)), Relation::Before);
    assert_eq!(key(1, 9).relation(&key(1, 8)), Relation::After);
}

#[test]
fn default_key_is_zero() {
    assert_eq!(Pubkey::default().bytes, [0; 32]);
}

#[test]
fn insert_replaces_the_value_of_a_key() {
    let mut map: KeyMap<32, u64> = KeyMap::new();
    map.insert(key(1, 1), 5);
    map.insert(key(0, 7), 6);
    map.insert(key(1, 1), 7);
    assert_eq!(map.get(&key(1, 1)), Some(&7));
    assert_eq!(map.get(&key(0, 7)), Some(&6));
    assert_eq!(map.get(&key(2, 2)), None);
    assert_eq!(map.keys(), &vec![key(0, 7), key(1, 1)]);
}

#[test]
fn append_keeps_the_order_of_items() {
    let mut map: KeyMap<32, Vec<u64>> = KeyMap::new();
    map.append(key(3, 0), 1);
    map.append(key(2, 0), 2);
    map.append(key(3, 0), 3);
    assert_eq!(map.get(&key(3, 0)), Some(&vec![1, 3]));
    assert_eq!(map.get(&key(2, 0)), Some(&vec![2]));
}

#[test]
fn many_keys_are_found() {
    let mut map: KeyMap<32, u64> = KeyMap::new();
    for i in 0..1000u64 {
        let n = (i * 7919) % 1000;
        map.insert(key((n % 256) as u8, (n / 256) as u8), n);
    }
    assert_eq!(map.keys().len(), 1000);
    for n in 0..1000u64 {
        assert_eq!(map.get(&key((n % 256) as u8, (n / 256) as u8)), Some(&n));
    }
    assert_eq!(map.get(&key(255, 200)), None);
}
