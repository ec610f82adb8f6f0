use memory_pool::{
    BytesStorage, IoError, ManagedMemoryBinding, ManagedMemoryHandle, MemoryIds, MemoryUsage,
    SlicedPool,
};

/// Fills `pool`'s freshly allocated page and then hands the slice a new
/// identity, dropping it, so the page reads as fully free while the returned
/// handle and binding keep naming it.
fn orphan(
    pool: &mut SlicedPool,
    storage: &mut BytesStorage,
    size: u64,
    ids: &mut MemoryIds,
) -> (ManagedMemoryHandle, ManagedMemoryBinding) {
    let reserved = pool.allocate(storage, size, ids).unwrap();
    let orphan = reserved.clone();
    let assigned = ManagedMemoryHandle::new(ids);

    pool.bind(reserved, assigned.clone(), 0).unwrap();
    drop(assigned);

    let binding = orphan.clone().binding();
    (orphan, binding)
}

#[test]
fn sliced_pool_stale_binding_does_not_alias_a_recycled_page() {
    let mut ids = MemoryIds::new();
    let mut storage = BytesStorage::default();
    let mut pool = SlicedPool::new(1024, 1024, 32, 0);

    let (_orphan, stale) = orphan(&mut pool, &mut storage, 1024, &mut ids);
    pool.cleanup(&mut storage, 0, true);
    assert!(pool.find(&stale).is_err(), "the page was deallocated");

    // A later allocation takes the vacated slot. The stale binding named the
    // slot's *previous* occupant, so it must not follow the slot to its new
    // one.
    let _next = pool.allocate(&mut storage, 1024, &mut ids).unwrap();
    assert!(matches!(pool.find(&stale), Err(IoError::NotFound { .. })));
}

#[test]
fn sliced_pool_surviving_pages_keep_their_key_across_cleanup() {
    let mut ids = MemoryIds::new();
    let mut storage = BytesStorage::default();
    let mut pool = SlicedPool::new(1024, 1024, 32, 0);

    // Three pages, with only the middle one still holding a live slice.
    let (_first, _) = orphan(&mut pool, &mut storage, 1024, &mut ids);
    let kept = pool.allocate(&mut storage, 1024, &mut ids).unwrap();
    let (_last, _) = orphan(&mut pool, &mut storage, 1024, &mut ids);

    let binding = kept.clone().binding();
    let location = kept.descriptor().location();

    // Freeing the pages on either side must leave the survivor exactly where
    // it was: no renumbering, so every descriptor naming it stays valid,
    // including any the pool can't reach to update.
    pool.cleanup(&mut storage, 0, true);

    assert_eq!(pool.find(&binding).unwrap().storage.size(), 1024);
    assert_eq!(kept.descriptor().location().page, location.page);
    assert_eq!(pool.get_memory_usage().bytes_reserved, 1024);
}

#[test]
fn sliced_pool_binding_a_stale_handle_errors_instead_of_panicking() {
    let mut ids = MemoryIds::new();
    let mut storage = BytesStorage::default();
    let mut pool = SlicedPool::new(1024, 1024, 32, 0);

    let (stale, _) = orphan(&mut pool, &mut storage, 1024, &mut ids);
    pool.cleanup(&mut storage, 0, true);

    assert!(matches!(
        pool.bind(stale, ManagedMemoryHandle::new(&mut ids), 0),
        Err(IoError::NotFound { .. })
    ));
}

#[test]
fn a_fifth_of_a_page_may_stay_unused() {
    let pool = SlicedPool::new(1000, 100, 1, 0);
    assert!(pool.accept(0));
    assert!(pool.accept(100));
    assert!(!pool.accept(101));
    assert!(!pool.accept(800));
    assert!(pool.accept(801));
    assert!(pool.accept(1000));
    assert!(!pool.accept(1001));
    assert!(!pool.accept(u64::MAX));
}

#[test]
fn what_fits_on_a_page_is_reserved_there() {
    let mut ids = MemoryIds::new();
    let mut storage = BytesStorage::default();
    let mut pool = SlicedPool::new(128, 64, 32, 5);
    assert!(pool.try_reserve(32, &mut ids).is_none());

    let first = pool.allocate(&mut storage, 20, &mut ids).unwrap();
    let location = first.descriptor().location();
    assert_eq!((location.pool, location.slice, location.init), (5, 0, 1));

    let second = pool.try_reserve(64, &mut ids).unwrap();
    assert_eq!(second.descriptor().page(), location.page);
    assert_eq!(second.descriptor().slice(), 1);
    let slice = pool.find(&second.clone().binding()).unwrap();
    assert_eq!((slice.storage.offset(), slice.storage.size()), (32, 64));
    assert!(pool.try_reserve(64, &mut ids).is_none());

    let usage = pool.get_memory_usage();
    assert_eq!(usage.number_allocs, 2);
    assert_eq!(usage.bytes_in_use, 84);
    assert_eq!(usage.bytes_padding, 12);
    assert_eq!(usage.bytes_reserved, 128);

    // What is given back is merged and reserved as one.
    drop(first);
    drop(second);
    let whole = pool.try_reserve(128, &mut ids).unwrap();
    assert_eq!(whole.descriptor().location(), location);
    assert_eq!(pool.count_reserved(), Some(128));
}

#[test]
fn pages_are_tried_in_the_order_of_their_keys() {
    let mut ids = MemoryIds::new();
    let mut storage = BytesStorage::default();
    let mut pool = SlicedPool::new(64, 64, 32, 0);
    let first = pool.allocate(&mut storage, 64, &mut ids).unwrap();
    let second = pool.allocate(&mut storage, 32, &mut ids).unwrap();
    let third = pool.try_reserve(32, &mut ids).unwrap();
    assert_eq!(third.descriptor().page(), second.descriptor().page());
    let page = first.descriptor().page();
    drop(first);
    drop(third);
    assert_eq!(pool.try_reserve(32, &mut ids).unwrap().descriptor().page(), page);
}

#[test]
fn binding_a_slice_gives_it_to_the_new_handle() {
    let mut ids = MemoryIds::new();
    let mut storage = BytesStorage::default();
    let mut pool = SlicedPool::new(128, 128, 32, 1);
    let reserved = pool.allocate(&mut storage, 32, &mut ids).unwrap();
    let assigned = ManagedMemoryHandle::new(&mut ids);
    let location = reserved.descriptor().location();
    assert_eq!(pool.bind(reserved, assigned.clone(), 7), Ok(()));
    assert_eq!(assigned.descriptor().location(), location);
    let slice = pool.find(&assigned.clone().binding()).unwrap();
    assert_eq!(slice.cursor, 7);
    assert_eq!(slice.handle.descriptor().id, assigned.descriptor().id);
    assert_eq!(slice.storage.size(), 32);
}

#[test]
fn a_slice_that_is_not_there_is_not_found() {
    let mut ids = MemoryIds::new();
    let mut storage = BytesStorage::default();
    let mut pool = SlicedPool::new(128, 128, 32, 0);
    let handle = pool.allocate(&mut storage, 32, &mut ids).unwrap();
    let location = handle.descriptor().location();
    assert!(pool.find_at(location.at_slice(1)).is_ok());
    assert_eq!(
        pool.find_at(location.at_slice(2)).map(|slice| slice.cursor),
        Err(IoError::NotFound { page: location.page })
    );
    let nowhere = ManagedMemoryHandle::new(&mut ids);
    assert!(matches!(pool.find(&nowhere.binding()), Err(IoError::NotFound { .. })));
}

#[test]
fn only_an_explicit_cleanup_frees_pages() {
    let mut ids = MemoryIds::new();
    let mut storage = BytesStorage::default();
    let mut pool = SlicedPool::new(1024, 1024, 32, 0);
    let handle = pool.allocate(&mut storage, 32, &mut ids).unwrap();
    let binding = handle.clone().binding();
    pool.cleanup(&mut storage, 1, true);
    assert_eq!(pool.get_memory_usage().bytes_reserved, 1024);

    drop(handle);
    // A binding keeps its memory in use.
    pool.cleanup(&mut storage, 2, true);
    assert_eq!(pool.find(&binding).unwrap().storage.size(), 32);

    drop(binding);
    pool.cleanup(&mut storage, 3, false);
    assert_eq!(pool.get_memory_usage().bytes_reserved, 1024);
    pool.cleanup(&mut storage, 4, true);
    assert_eq!(pool.get_memory_usage(), MemoryUsage::none());
}

#[test]
fn what_the_storage_refuses_is_refused() {
    let mut ids = MemoryIds::new();
    let mut storage = BytesStorage::default();
    let mut pool = SlicedPool::new(u64::MAX - 31, 32, 32, 0);
    assert_eq!(
        pool.allocate(&mut storage, 32, &mut ids).map(|handle| handle.descriptor().slice()),
        Err(IoError::BufferTooBig { size: u64::MAX - 31 })
    );
    assert_eq!(pool.get_memory_usage(), MemoryUsage::none());
    assert_eq!(ids.count_left(), usize::MAX);
}

#[test]
fn a_sliced_pool_reports_its_pages() {
    let mut ids = MemoryIds::new();
    let mut storage = BytesStorage::default();
    let mut pool = SlicedPool::new(128, 64, 32, 0);
    assert!(pool.report().is_none());
    let _handle = pool.allocate(&mut storage, 20, &mut ids).unwrap();
    let report = pool.report().unwrap();
    assert_eq!((report.page_size, report.max_alloc_size), (128, 64));
    assert_eq!(report.pages.len(), 1);
    assert_eq!(report.pages[0].id.value, 0);
    assert_eq!(report.pages[0].num_slices, 2);
    assert_eq!(report.pages[0].amount_free, 96);
    assert_eq!(report.pages[0].amount_full, 32);
    assert_eq!(report.pages[0].amount_total, 128);
    assert_eq!(report.usage, pool.get_memory_usage());
}

#[test]
fn a_cleanup_goes_by_what_was_observed() {
    let mut ids = MemoryIds::new();
    let mut storage = BytesStorage::default();
    let mut pool = SlicedPool::new(64, 64, 32, 0);
    let first = pool.allocate(&mut storage, 64, &mut ids).unwrap();
    let second = pool.allocate(&mut storage, 64, &mut ids).unwrap();
    assert_eq!(pool.observe(), vec![vec![false], vec![false]]);
    pool.cleanup_with(&mut storage, true, &vec![vec![true], vec![false]]);
    assert!(pool.find(&first.binding()).is_err());
    assert!(pool.find(&second.binding()).is_ok());
}

#[test]
fn a_page_that_went_is_not_found_however_its_slot_is_used() {
    let mut ids = MemoryIds::new();
    let mut storage = BytesStorage::default();
    let mut pool = SlicedPool::new(64, 64, 32, 0);
    let (_orphan, stale) = orphan(&mut pool, &mut storage, 64, &mut ids);
    for _ in 0..20 {
        pool.cleanup(&mut storage, 0, true);
        assert!(matches!(pool.find(&stale), Err(IoError::NotFound { .. })));
        let next = pool.allocate(&mut storage, 32, &mut ids).unwrap();
        assert!(matches!(pool.find(&stale), Err(IoError::NotFound { .. })));
        let _other = pool.try_reserve(32, &mut ids).unwrap();
        pool.bind(next, ManagedMemoryHandle::new(&mut ids), 1).unwrap();
        assert!(matches!(pool.find(&stale), Err(IoError::NotFound { .. })));
    }
}

#[test]
fn what_is_accepted_can_be_allocated() {
    let mut ids = MemoryIds::new();
    let mut storage = BytesStorage::default();
    let mut pool = SlicedPool::new(1024, 256, 32, 0);
    for size in [0, 1, 255, 256, 820, 1023, 1024] {
        assert!(pool.accept(size));
        assert!(pool.allocate(&mut storage, size, &mut ids).is_ok());
    }
    assert!(!pool.accept(257));
    assert!(!pool.accept(819));
}

#[test]
fn usage_of_a_sliced_pool_is_aligned() {
    let mut ids = MemoryIds::new();
    let mut storage = BytesStorage::default();
    let mut pool = SlicedPool::new(128, 128, 32, 0);
    let _first = pool.allocate(&mut storage, 1, &mut ids).unwrap();
    let _second = pool.try_reserve(33, &mut ids).unwrap();
    let usage = pool.get_memory_usage();
    assert_eq!(usage.bytes_in_use + usage.bytes_padding, 96);
    assert_eq!(usage.bytes_reserved, 128);
}

#[test]
fn reserved_bytes_are_those_of_the_pages_that_were_not_given_back() {
    let mut ids = MemoryIds::new();
    let mut storage = BytesStorage::default();
    let mut pool = SlicedPool::new(64, 64, 32, 0);
    let mut handles = Vec::new();
    for made in 1..=5 {
        handles.push(pool.allocate(&mut storage, 64, &mut ids).unwrap());
        assert_eq!(pool.count_reserved(), Some(made * 64));
    }
    handles.remove(3);
    handles.remove(1);
    pool.cleanup(&mut storage, 0, true);
    assert_eq!(pool.count_reserved(), Some(3 * 64));
}

#[test]
fn a_page_that_is_not_cut_takes_one_identifier() {
    let mut ids = MemoryIds::new();
    let mut storage = BytesStorage::default();
    let mut pool = SlicedPool::new(64, 64, 32, 0);
    let _whole = pool.allocate(&mut storage, 64, &mut ids).unwrap();
    assert_eq!(ids.count_left(), usize::MAX - 1);
    let _part = pool.allocate(&mut storage, 32, &mut ids).unwrap();
    assert_eq!(ids.count_left(), usize::MAX - 3);
}

#[test]
fn a_slice_that_a_binding_names_stays_as_it_is() {
    let mut ids = MemoryIds::new();
    let mut storage = BytesStorage::default();
    let mut pool = SlicedPool::new(128, 128, 32, 0);
    let first = pool.allocate(&mut storage, 32, &mut ids).unwrap();
    let second = pool.try_reserve(32, &mut ids).unwrap();
    let third = pool.try_reserve(20, &mut ids).unwrap();
    let page = third.descriptor().page();
    let binding = third.binding();
    drop(first);
    drop(second);
    let before = pool.find(&binding).unwrap().storage;
    pool.cleanup(&mut storage, 0, true);

    // The two free slices before it are one now, and its handle knows.
    assert_eq!(binding.descriptor().page(), page);
    assert_eq!(binding.descriptor().slice(), 1);
    let slice = pool.find(&binding).unwrap();
    assert_eq!(slice.storage, before);
    assert_eq!((slice.storage.offset(), slice.storage.size(), slice.padding), (64, 20, 12));
}
