use terramap::multimap::Index;
use terramap::multimap::MultiMap;

#[test]
fn insert_then_get() {
    let mut m: MultiMap<String> = MultiMap::with_capacity(4);
    assert!(!m.contains_key(&7));
    assert_eq!(m.insert(7, String::from("seven")), None);
    assert!(m.contains_key(&7));
    assert_eq!(m.get(&7), Some(&String::from("seven")));
    assert_eq!(m.get(&8), None);
}

#[test]
fn next_index_counts_inserts() {
    let mut m: MultiMap<u32> = MultiMap::with_capacity(0);
    assert_eq!(m.next_index(), Index(0));
    m.insert(1, 10);
    assert_eq!(m.next_index(), Index(1));
    m.insert(2, 20);
    assert_eq!(m.next_index(), Index(2));
    assert_eq!(m.unique_keys_count(), 2);
}

#[test]
fn aliases_share_the_slot() {
    let mut m: MultiMap<u32> = MultiMap::with_capacity(0);
    m.insert(1, 10);
    assert_eq!(m.alias(&1, 2), None);
    assert!(m.is_key(&1));
    assert!(m.is_alias(&2));
    assert!(m.is_alias_of(&1, &2));
    assert_eq!(m.get(&2), Some(&10));
    // an alias cannot be the base of another alias
    assert_eq!(m.alias(&2, 3), None);
    assert!(!m.contains_key(&3));
}

#[test]
fn remove_takes_key_and_data() {
    let mut m: MultiMap<u32> = MultiMap::with_capacity(0);
    m.insert(5, 50);
    assert_eq!(m.remove(&5), Some(50));
    assert!(!m.contains_key(&5));
    assert_eq!(m.remove(&5), None);
}

#[test]
fn remove_key_spares_aliases() {
    let mut m: MultiMap<u32> = MultiMap::with_capacity(0);
    m.insert(1, 10);
    m.alias(&1, 2);
    // removing an alias through remove_key does nothing
    assert_eq!(m.remove_key(&2), None);
    assert!(m.is_alias(&2));
    // removing the key leaves the alias bound
    let e = m.remove_key(&1).unwrap();
    assert_eq!(e.0, Index(0));
    assert!(!m.contains_key(&1));
    assert!(m.is_alias(&2));
    m.remove_alias(&2);
    assert!(!m.contains_key(&2));
}

#[test]
fn destroy_key_takes_either() {
    let mut m: MultiMap<u32> = MultiMap::with_capacity(0);
    m.insert(1, 10);
    m.alias(&1, 2);
    assert!(m.destroy_key(&2).is_some());
    assert!(m.destroy_key(&2).is_none());
    assert!(m.destroy_key(&1).is_some());
}

#[test]
fn replace_key_rebinds() {
    let mut m: MultiMap<u32> = MultiMap::with_capacity(0);
    m.insert(1, 10);
    assert_eq!(m.replace_key(&1, 9), None);
    assert!(!m.contains_key(&1));
    assert!(m.is_key(&9));
    assert_eq!(m.get(&9), Some(&10));
    // replacing an unbound key does nothing
    assert_eq!(m.replace_key(&42, 43), None);
    assert!(!m.contains_key(&43));
}

#[test]
fn insert_data_overwrites_slot() {
    let mut m: MultiMap<u32> = MultiMap::with_capacity(0);
    m.insert(1, 10);
    assert_eq!(m.insert_data(1, 11), Some(10));
    assert_eq!(m.get(&1), Some(&11));
    assert_eq!(*m.unchecked_get(&1), 11);
}

#[test]
fn lens_and_views() {
    let mut m: MultiMap<u32> = MultiMap::with_capacity(0);
    m.insert(1, 10);
    m.insert(2, 20);
    m.alias(&1, 3);
    assert_eq!(m.keys_len(), 3);
    assert_eq!(m.data_len(), 2);
    assert_eq!(m.order(), 2);
    let mut ks = m.keys();
    ks.sort();
    assert_eq!(ks, vec![1, 2, 3]);
    assert_eq!(m.key_values().len(), 3);
    let mut vs: Vec<u32> = m.data_values().into_iter().copied().collect();
    vs.sort();
    assert_eq!(vs, vec![10, 20]);
    assert_eq!(m.data().len(), 2);
    assert_eq!(m.keys_get(&2), Some(Index(1)));
    assert_eq!(m.data_get(&Index(0)), Some(&10));
    m.clear();
    assert_eq!(m.keys_len(), 0);
    assert_eq!(m.data_len(), 0);
}

#[test]
fn unalias_drops_all_aliases() {
    let mut m: MultiMap<u32> = MultiMap::with_capacity(0);
    m.insert(1, 10);
    m.insert(5, 50);
    m.alias(&1, 2);
    m.alias(&1, 3);
    let dropped = m.unalias(&1);
    assert_eq!(dropped, vec![2, 3]);
    assert!(m.is_key(&1));
    assert!(!m.contains_key(&2));
    assert!(!m.contains_key(&3));
    assert!(m.is_key(&5));
    // unaliasing an unbound key does nothing
    assert_eq!(m.unalias(&99), Vec::<u64>::new());
}
