use memory_pool::page_map::PageMap;
use memory_pool::PageKey;

#[test]
fn pages_are_found_under_their_keys() {
    let mut map: PageMap<u32> = PageMap::new();
    assert!(map.list_keys().is_empty());
    assert!(map.has_room());
    let first = map.insert(10);
    let second = map.insert_with_key(|_key| 20);
    assert_ne!(first, second);
    assert_eq!(map.list_keys(), vec![first, second]);
    assert_eq!(map.get(first), Some(&10));
    assert_eq!(map.get(second), Some(&20));
    *map.get_mut(first).unwrap() = 11;
    assert_eq!(map.get(first), Some(&11));
    assert_eq!(map.get(second), Some(&20));
}

#[test]
fn a_page_knows_its_key_when_it_is_made() {
    let mut map: PageMap<PageKey> = PageMap::new();
    let key = map.insert_with_key(|key| key);
    assert_eq!(map.get(key), Some(&key));
}

#[test]
fn a_removed_page_is_not_found_again() {
    let mut map: PageMap<u32> = PageMap::new();
    let first = map.insert(10);
    let second = map.insert(20);
    assert_eq!(map.remove(first), Some(10));
    assert_eq!(map.remove(first), None);
    assert_eq!(map.get(first), None);
    assert!(map.get_mut(first).is_none());

    // The others keep their keys.
    assert_eq!(map.list_keys(), vec![second]);
    assert_eq!(map.get(second), Some(&20));

    // The slot is taken again, under another key that stands where the old one did.
    let third = map.insert(30);
    assert_ne!(third, first);
    assert_eq!(map.get(first), None);
    assert_eq!(map.get(third), Some(&30));
    assert_eq!(map.list_keys(), vec![third, second]);
}

#[test]
fn a_slot_gives_a_new_key_every_time() {
    let mut map: PageMap<u32> = PageMap::new();
    let mut seen: Vec<PageKey> = Vec::new();
    for i in 0..100 {
        let key = map.insert(i);
        assert!(!seen.contains(&key));
        seen.push(key);
        assert_eq!(map.list_keys(), vec![key]);
        assert_eq!(map.remove(key), Some(i));
    }
    for key in seen {
        assert_eq!(map.get(key), None);
    }
}

#[test]
fn the_null_key_finds_no_page() {
    let mut map: PageMap<u32> = PageMap::new();
    for i in 0..10 {
        let key = map.insert(i);
        assert_ne!(key, PageKey::default());
    }
    assert_eq!(map.get(PageKey::default()), None);
    assert_eq!(map.remove(PageKey::default()), None);
    assert_eq!(map.list_keys().len(), 10);
}
