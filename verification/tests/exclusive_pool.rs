use memory_pool::{
    BytesStorage, ExclusiveMemoryPool, IoError, ManagedMemoryBinding, ManagedMemoryHandle,
    MemoryIds, MemoryUsage,
};

/// Half of the largest allocation, the average that a new pool starts from.
const AVERAGE: u64 = 512;

/// Hands `pool`'s freshly allocated page a new identity and drops it, so the
/// page reads as free while the returned handle and binding keep naming it.
fn orphan(
    pool: &mut ExclusiveMemoryPool,
    storage: &mut BytesStorage,
    size: u64,
    ids: &mut MemoryIds,
) -> (ManagedMemoryHandle, ManagedMemoryBinding) {
    let reserved = pool.allocate(storage, size, AVERAGE, ids).unwrap();
    let orphan = reserved.clone();
    let assigned = ManagedMemoryHandle::new(ids);

    pool.bind(reserved, assigned.clone(), 0).unwrap();
    drop(assigned);

    let binding = orphan.clone().binding();
    (orphan, binding)
}

#[test]
fn exclusive_pool_stale_binding_does_not_alias_a_recycled_page() {
    let mut ids = MemoryIds::new();
    let mut storage = BytesStorage::default();
    let mut pool = ExclusiveMemoryPool::new(1024, 32, u64::MAX, 0);

    let (_orphan, stale) = orphan(&mut pool, &mut storage, 1024, &mut ids);
    pool.cleanup(&mut storage, 0, true);
    assert!(pool.find(&stale).is_err(), "the page was deallocated");

    // A later allocation takes the vacated slot. The stale binding named the
    // slot's *previous* occupant, so it must not follow the slot to its new
    // one.
    let _next = pool.allocate(&mut storage, 1024, AVERAGE, &mut ids).unwrap();
    assert!(matches!(pool.find(&stale), Err(IoError::NotFound { .. })));
}

#[test]
fn exclusive_pool_surviving_pages_keep_their_key_across_cleanup() {
    let mut ids = MemoryIds::new();
    let mut storage = BytesStorage::default();
    let mut pool = ExclusiveMemoryPool::new(1024, 32, u64::MAX, 0);

    let first = pool.allocate(&mut storage, 1024, AVERAGE, &mut ids).unwrap();
    let kept = pool.allocate(&mut storage, 1024, AVERAGE, &mut ids).unwrap();
    let last = pool.allocate(&mut storage, 1024, AVERAGE, &mut ids).unwrap();

    let binding = kept.clone().binding();
    let location = kept.descriptor().location();
    drop(first);
    drop(last);

    // Freeing the pages on either side must leave the survivor exactly where
    // it was: no renumbering, so every descriptor naming it stays valid,
    // including any the pool can't reach to update.
    pool.cleanup(&mut storage, 0, true);

    assert_eq!(pool.find(&binding).unwrap().storage.size(), 1024);
    assert_eq!(kept.descriptor().location().page, location.page);
    assert_eq!(pool.get_memory_usage().bytes_reserved, 1024);
}

#[test]
fn exclusive_pool_binding_a_stale_handle_errors_instead_of_panicking() {
    let mut ids = MemoryIds::new();
    let mut storage = BytesStorage::default();
    let mut pool = ExclusiveMemoryPool::new(1024, 32, u64::MAX, 0);

    let (stale, _) = orphan(&mut pool, &mut storage, 1024, &mut ids);
    pool.cleanup(&mut storage, 0, true);

    assert!(matches!(
        pool.bind(stale, ManagedMemoryHandle::new(&mut ids), 0),
        Err(IoError::NotFound { .. })
    ));
}

#[test]
fn what_is_too_big_is_refused() {
    let mut ids = MemoryIds::new();
    let mut storage = BytesStorage::default();
    let mut pool = ExclusiveMemoryPool::new(1024, 32, 100, 0);
    assert!(pool.accept(0));
    assert!(pool.accept(1024));
    assert!(!pool.accept(1025));
    assert_eq!(
        pool.allocate(&mut storage, 1025, AVERAGE, &mut ids)
            .map(|handle| handle.descriptor().slice()),
        Err(IoError::BufferTooBig { size: 1025 })
    );
    assert_eq!(ids.count_left(), usize::MAX);
    assert_eq!(pool.get_memory_usage(), MemoryUsage::none());
}

#[test]
fn a_page_is_as_large_as_requests_are_on_average() {
    let pool = ExclusiveMemoryPool::new(1024, 32, 100, 0);
    assert_eq!(pool.alloc_size(10, 512), 512);
    assert_eq!(pool.alloc_size(10, 500), 512);
    assert_eq!(pool.alloc_size(600, 512), 608);
    assert_eq!(pool.alloc_size(1024, 0), 1024);
    assert_eq!(pool.alloc_size(0, 0), 0);
}

#[test]
fn a_page_is_handed_out_as_a_whole() {
    let mut ids = MemoryIds::new();
    let mut storage = BytesStorage::default();
    let mut pool = ExclusiveMemoryPool::new(1024, 32, 100, 6);
    assert!(pool.try_reserve(10).is_none());
    let first = pool.allocate(&mut storage, 20, AVERAGE, &mut ids).unwrap();
    let location = first.descriptor().location();
    assert_eq!((location.pool, location.slice, location.init), (6, 0, 1));
    assert_eq!(
        pool.get_memory_usage(),
        MemoryUsage {
            number_allocs: 1,
            bytes_in_use: 20,
            bytes_padding: 12,
            bytes_reserved: 512,
        }
    );
    // The rest of the page is not to be had.
    assert!(pool.try_reserve(10).is_none());

    drop(first);
    assert!(pool.try_reserve(513).is_none());
    let again = pool.try_reserve(500).unwrap();
    assert_eq!(again.descriptor().location(), location);
    let slice = pool.find(&again.clone().binding()).unwrap();
    assert_eq!((slice.storage.offset(), slice.storage.size()), (0, 500));
    assert_eq!(slice.padding, 12);
    assert_eq!(pool.count_reserved(), Some(512));
}

#[test]
fn the_page_found_free_the_least_is_reserved() {
    let mut ids = MemoryIds::new();
    let mut storage = BytesStorage::default();
    let mut pool = ExclusiveMemoryPool::new(1024, 32, 100, 0);
    let first = pool.allocate(&mut storage, 64, 0, &mut ids).unwrap();
    let second = pool.allocate(&mut storage, 1024, 0, &mut ids).unwrap();
    let small = first.descriptor().page();
    let large = second.descriptor().page();
    drop(second);

    // Using the large page once more makes it the one to use next.
    assert_eq!(pool.try_reserve(64).unwrap().descriptor().page(), large);
    drop(first);
    assert_eq!(pool.get_free_page_with(64, &pool.observe()), Some(1));
    assert_eq!(pool.try_reserve(64).unwrap().descriptor().page(), large);

    // Only a page that is free and large enough will do.
    assert_eq!(pool.get_free_page_with(64, &vec![true, false]), Some(0));
    assert_eq!(pool.get_free_page_with(65, &vec![true, false]), None);
    assert_ne!(small, large);
}

#[test]
fn of_pages_used_as_often_the_first_is_reserved() {
    let mut ids = MemoryIds::new();
    let mut storage = BytesStorage::default();
    let mut pool = ExclusiveMemoryPool::new(1024, 32, 100, 0);
    let first = pool.allocate(&mut storage, 1024, 0, &mut ids).unwrap();
    let second = pool.allocate(&mut storage, 64, 0, &mut ids).unwrap();
    let page = first.descriptor().page();
    drop(first);
    drop(second);
    assert_eq!(pool.try_reserve(64).unwrap().descriptor().page(), page);
}

#[test]
fn pages_are_checked_five_times_in_a_period() {
    let mut ids = MemoryIds::new();
    let mut storage = BytesStorage::default();
    let mut pool = ExclusiveMemoryPool::new(1024, 32, 100, 0);
    drop(pool.allocate(&mut storage, 64, AVERAGE, &mut ids).unwrap());

    // Every use puts off the end by a check: four uses, four checks more.
    for _ in 0..4 {
        drop(pool.try_reserve(64).unwrap());
    }
    pool.cleanup(&mut storage, 19, false);
    assert_eq!(pool.last_checked_at(), 0);
    for check in 1..=4 {
        pool.cleanup(&mut storage, check * 20, false);
        assert_eq!(pool.last_checked_at(), check * 20);
        assert_eq!(pool.get_memory_usage().bytes_reserved, 512);
    }
    pool.cleanup(&mut storage, 100, false);
    assert_eq!(pool.get_memory_usage(), MemoryUsage::none());
}

#[test]
fn a_page_that_was_never_used_again_goes_at_the_first_check() {
    let mut ids = MemoryIds::new();
    let mut storage = BytesStorage::default();
    let mut pool = ExclusiveMemoryPool::new(1024, 32, 100, 0);
    let handle = pool.allocate(&mut storage, 64, AVERAGE, &mut ids).unwrap();
    // While it is in use, no check counts.
    for check in 1..=10 {
        pool.cleanup(&mut storage, check * 20, false);
    }
    assert!(pool.find(&handle.clone().binding()).is_ok());
    drop(handle);
    pool.cleanup(&mut storage, 219, false);
    assert_eq!(pool.get_memory_usage().bytes_reserved, 512);
    pool.cleanup(&mut storage, 220, false);
    assert_eq!(pool.get_memory_usage().bytes_reserved, 0);
}

#[test]
fn an_explicit_cleanup_frees_all_free_pages() {
    let mut ids = MemoryIds::new();
    let mut storage = BytesStorage::default();
    let mut pool = ExclusiveMemoryPool::new(1024, 32, u64::MAX, 0);
    drop(pool.allocate(&mut storage, 64, 0, &mut ids).unwrap());
    for _ in 0..4 {
        drop(pool.try_reserve(64).unwrap());
    }
    let kept = pool.allocate(&mut storage, 128, 0, &mut ids).unwrap();
    pool.cleanup(&mut storage, 7, true);
    assert_eq!(pool.last_checked_at(), 7);
    assert_eq!(pool.get_memory_usage().bytes_reserved, 128);
    assert!(pool.find(&kept.binding()).is_ok());
}

#[test]
fn binding_a_page_gives_it_to_the_new_handle() {
    let mut ids = MemoryIds::new();
    let mut storage = BytesStorage::default();
    let mut pool = ExclusiveMemoryPool::new(1024, 32, 100, 2);
    let reserved = pool.allocate(&mut storage, 64, AVERAGE, &mut ids).unwrap();
    let assigned = ManagedMemoryHandle::new(&mut ids);
    let location = reserved.descriptor().location();
    assert_eq!(pool.bind(reserved, assigned.clone(), 7), Ok(()));
    assert_eq!(assigned.descriptor().location(), location);
    let slice = pool.find(&assigned.clone().binding()).unwrap();
    assert_eq!(slice.cursor, 7);
    assert_eq!(slice.handle.descriptor().id, assigned.descriptor().id);
    assert_eq!(slice.storage.size(), 64);
}

#[test]
fn an_exclusive_pool_passes_on_what_the_storage_refuses() {
    let mut ids = MemoryIds::new();
    let mut storage = BytesStorage::default();
    let largest = u64::MAX - 31;
    let mut pool = ExclusiveMemoryPool::new(largest, 32, 100, 0);
    assert_eq!(
        pool.allocate(&mut storage, largest, 0, &mut ids)
            .map(|handle| handle.descriptor().slice()),
        Err(IoError::BufferTooBig { size: largest })
    );
    assert_eq!(pool.get_memory_usage(), MemoryUsage::none());
}

#[test]
fn an_exclusive_pool_reports_its_pages() {
    let mut ids = MemoryIds::new();
    let mut storage = BytesStorage::default();
    let mut pool = ExclusiveMemoryPool::new(1024, 32, 100, 0);
    let empty = pool.report();
    assert_eq!(empty.max_alloc_size, 1024);
    assert!(empty.pages.is_empty());
    assert!(empty.usage.is_none());

    let _used = pool.allocate(&mut storage, 20, 0, &mut ids).unwrap();
    drop(pool.allocate(&mut storage, 64, 0, &mut ids).unwrap());
    let report = pool.report();
    assert_eq!(report.pages.len(), 2);
    assert_eq!((report.pages[0].size, report.pages[0].is_free), (32, false));
    assert_eq!((report.pages[1].size, report.pages[1].is_free), (64, true));
    assert_eq!(report.usage, Some(pool.get_memory_usage()));
}

#[test]
fn a_page_that_went_is_not_found_however_often_its_slot_is_used() {
    let mut ids = MemoryIds::new();
    let mut storage = BytesStorage::default();
    let mut pool = ExclusiveMemoryPool::new(1024, 32, u64::MAX, 0);
    let (_orphan, stale) = orphan(&mut pool, &mut storage, 64, &mut ids);
    for _ in 0..20 {
        pool.cleanup(&mut storage, 0, true);
        assert!(matches!(pool.find(&stale), Err(IoError::NotFound { .. })));
        drop(pool.allocate(&mut storage, 64, AVERAGE, &mut ids).unwrap());
        let again = pool.try_reserve(32).unwrap();
        pool.bind(again, ManagedMemoryHandle::new(&mut ids), 1).unwrap();
        assert!(matches!(pool.find(&stale), Err(IoError::NotFound { .. })));
    }
}

#[test]
fn a_page_survives_as_many_checks_as_it_was_used_again() {
    for uses in 0..7 {
        let mut ids = MemoryIds::new();
        let mut storage = BytesStorage::default();
        let mut pool = ExclusiveMemoryPool::new(1024, 32, 100, 0);
        drop(pool.allocate(&mut storage, 64, 0, &mut ids).unwrap());
        for _ in 0..uses {
            drop(pool.try_reserve(64).unwrap());
        }
        let mut survived = 0;
        while pool.count_reserved() == Some(64) {
            survived += 1;
            pool.cleanup(&mut storage, survived * 20, false);
        }
        assert_eq!(survived - 1, if uses < 4 { uses } else { 4 });
    }
}

#[test]
fn an_unused_page_goes_within_the_period() {
    for period in [4, 5, 9, 23, 100] {
        let mut ids = MemoryIds::new();
        let mut storage = BytesStorage::default();
        let mut pool = ExclusiveMemoryPool::new(1024, 32, period, 0);
        let first = 1000;
        pool.cleanup(&mut storage, first, false);
        drop(pool.allocate(&mut storage, 64, 0, &mut ids).unwrap());
        for _ in 0..10 {
            drop(pool.try_reserve(64).unwrap());
        }
        for alloc_nr in first..=first + period {
            pool.cleanup(&mut storage, alloc_nr, false);
        }
        assert_eq!(pool.count_reserved(), Some(0));
    }
}

#[test]
fn usage_of_an_exclusive_pool_is_aligned() {
    let mut ids = MemoryIds::new();
    let mut storage = BytesStorage::default();
    let mut pool = ExclusiveMemoryPool::new(1024, 32, 100, 0);
    let _first = pool.allocate(&mut storage, 1, 40, &mut ids).unwrap();
    let _second = pool.allocate(&mut storage, 33, 0, &mut ids).unwrap();
    let usage = pool.get_memory_usage();
    assert_eq!(usage.bytes_in_use + usage.bytes_padding, 96);
    assert_eq!(usage.bytes_reserved, 128);
}

#[test]
fn a_page_that_a_binding_names_stays_as_it_is() {
    let mut ids = MemoryIds::new();
    let mut storage = BytesStorage::default();
    let mut pool = ExclusiveMemoryPool::new(1024, 32, 5, 0);
    drop(pool.allocate(&mut storage, 64, 0, &mut ids).unwrap());
    let reserved = pool.allocate(&mut storage, 20, AVERAGE, &mut ids).unwrap();
    let assigned = ManagedMemoryHandle::new(&mut ids);
    pool.bind(reserved, assigned.clone(), 9).unwrap();
    drop(pool.allocate(&mut storage, 64, 0, &mut ids).unwrap());

    let location = assigned.descriptor().location();
    let binding = assigned.binding();
    let before = pool.find(&binding).unwrap().storage;
    for alloc_nr in 1..50 {
        pool.cleanup(&mut storage, alloc_nr, alloc_nr % 7 == 0);
    }
    assert_eq!(binding.descriptor().location(), location);
    let slice = pool.find(&binding).unwrap();
    assert_eq!(slice.storage, before);
    assert_eq!((slice.storage.size(), slice.padding, slice.cursor), (20, 12, 9));
    assert_eq!(pool.count_reserved(), Some(512));
}
