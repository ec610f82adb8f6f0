use memory_pool::page_map::PageMap;
use memory_pool::{
    ManagedMemoryHandle, MemoryIds, MemoryLocation, PageKey, SharedMemoryBindings,
};

#[test]
fn test_memory_id_mutability() {
    let mut ids = MemoryIds::new();
    let handle1 = ManagedMemoryHandle::new(&mut ids);
    handle1.descriptor().update_slice(4);
    assert_eq!(handle1.descriptor().slice(), 4);

    let handle2 = ManagedMemoryHandle::new(&mut ids);
    handle2
        .clone()
        .descriptor()
        .update_location(handle1.descriptor().location());
    assert_eq!(handle2.descriptor().slice(), 4);
}

#[test]
fn test_location_visible_through_shared_arc() {
    let mut ids = MemoryIds::new();
    let handle = ManagedMemoryHandle::new(&mut ids);
    let handle2 = handle.clone();

    let mut location = MemoryLocation::base(1);
    location.slice = 3;
    handle.descriptor().update_location(location);

    assert_eq!(handle2.descriptor().location().pool, 1);
    assert_eq!(handle2.descriptor().location().slice, 3);
    assert_eq!(handle2.descriptor().location().init, 1);

    handle.descriptor().update_slice(42);
    assert_eq!(handle2.descriptor().slice(), 42);
}

#[test]
fn a_location_is_read_as_it_was_written() {
    let mut ids = MemoryIds::new();
    let handle = ManagedMemoryHandle::new(&mut ids);
    let reader = handle.clone();

    // Two real page keys, so `page` differs between the two locations.
    let mut pages: PageMap<()> = PageMap::new();
    let key_a = pages.insert(());
    let key_b = pages.insert(());
    assert!(key_a != key_b && key_a != PageKey::default() && key_b != PageKey::default());

    let mut a = MemoryLocation::base(1);
    a.page = key_a;
    let mut b = MemoryLocation::base(2);
    b.page = key_b;
    b.slice = 7;

    for i in 0..1000 {
        let written = if i % 2 == 0 { a } else { b };
        handle.descriptor().update_location(written);
        assert_eq!(reader.descriptor().location(), written);
        assert_eq!(reader.descriptor().page(), written.page);
    }
}

#[test]
fn ids_are_never_given_out_twice() {
    let mut ids = MemoryIds::new();
    assert_eq!(ids.count_left(), usize::MAX);
    let first = ManagedMemoryHandle::new(&mut ids);
    let second = ManagedMemoryHandle::new(&mut ids);
    assert_eq!(first.descriptor().id.value, 0);
    assert_eq!(second.descriptor().id.value, 1);
    assert_eq!(ids.gen_id(), 2);
    assert_eq!(ids.count_left(), usize::MAX - 3);
    assert!(first.descriptor() != second.descriptor());
    assert!(first.descriptor() == first.clone().descriptor());
}

#[test]
fn a_new_handle_is_nowhere() {
    let mut ids = MemoryIds::new();
    let handle = ManagedMemoryHandle::new(&mut ids);
    let location = handle.descriptor().location();
    assert_eq!(location, MemoryLocation::uninit());
    assert_eq!(location.pool, 0);
    assert_eq!(location.init, 0);
    assert_eq!(location.page, PageKey::default());
    assert_eq!(handle.descriptor().page(), PageKey::default());
}

#[test]
fn updating_a_slice_leaves_the_rest_of_a_location() {
    let mut ids = MemoryIds::new();
    let handle = ManagedMemoryHandle::new(&mut ids);
    handle.descriptor().update_location(MemoryLocation::base(9));
    handle.descriptor().update_slice(6);
    let location = handle.descriptor().location();
    assert_eq!((location.pool, location.slice, location.init), (9, 6, 1));
}

#[test]
fn the_null_key_is_the_one_of_the_slot_map() {
    assert_eq!(
        MemoryLocation::base(0).page,
        PageKey::default(),
    );
    let null = slotmap::Key::data(&slotmap::DefaultKey::default()).as_ffi();
    assert_eq!(null, 0x1_ffff_ffff);
    assert_eq!(format!("{:?}", PageKey::default()), format!("PageKey {{ value: {null} }}"));
}

#[test]
fn a_handle_is_free_once_it_is_the_only_one() {
    let mut ids = MemoryIds::new();
    let handle = ManagedMemoryHandle::new(&mut ids);
    assert!(handle.is_free());
    let other = handle.clone();
    assert!(!handle.is_free());
    let binding = other.binding();
    assert!(!handle.is_free());
    assert!(binding.descriptor() == handle.descriptor());
    drop(binding);
    assert!(handle.is_free());
}

#[test]
fn two_handles_can_mut_and_three_cannot() {
    let mut ids = MemoryIds::new();
    let handle = ManagedMemoryHandle::new(&mut ids);
    assert!(handle.can_mut());
    let second = handle.clone();
    assert!(handle.can_mut());
    let third = handle.clone();
    assert!(!handle.can_mut());
    // A binding names the memory but is no handle.
    let binding = third.binding();
    assert!(handle.can_mut());
    let bindings = binding.clone();
    assert!(handle.can_mut());
    assert!(!handle.is_free());
    drop(second);
    drop(binding);
    drop(bindings);
    assert!(handle.is_free());
}

#[test]
fn counts_decide_what_a_handle_allows() {
    assert!(memory_pool::handle::can_mut_when_shared_by(1));
    assert!(memory_pool::handle::can_mut_when_shared_by(2));
    assert!(!memory_pool::handle::can_mut_when_shared_by(3));
    assert!(memory_pool::handle::is_free_when_named_by(1));
    assert!(!memory_pool::handle::is_free_when_named_by(2));
}

#[test]
fn shared_bindings_are_a_list() {
    let mut ids = MemoryIds::new();
    let mut shared = SharedMemoryBindings::default();
    assert!(shared.is_empty());
    let handle = ManagedMemoryHandle::new(&mut ids);
    shared.push(handle.clone().binding());
    shared.push(ManagedMemoryHandle::new(&mut ids).binding());
    assert!(!shared.is_empty());
    assert_eq!(shared.bindings.len(), 2);
    assert!(shared.bindings[0].descriptor() == handle.descriptor());
    assert!(!handle.is_free());
    shared.clear();
    assert!(shared.is_empty());
    assert!(handle.is_free());
    shared.push(handle.binding());
    shared.reclaim();
    assert!(shared.is_empty());
}

#[test]
fn bindings_do_not_count_against_can_mut() {
    let mut ids = MemoryIds::new();
    let handle = ManagedMemoryHandle::new(&mut ids);
    let first = handle.clone().binding();
    let _second = first.clone();
    let _other = handle.clone();
    assert!(handle.can_mut());
    let third = handle.clone();
    assert!(!handle.can_mut());
    drop(third);
    assert!(handle.can_mut());
}

#[test]
fn handles_and_bindings_count_against_is_free() {
    let mut ids = MemoryIds::new();
    let handle = ManagedMemoryHandle::new(&mut ids);
    assert!(handle.is_free());
    let binding = handle.clone().binding();
    assert!(!handle.is_free());
    drop(binding);
    assert!(handle.is_free());
    let _other = handle.clone();
    assert!(!handle.is_free());
}
