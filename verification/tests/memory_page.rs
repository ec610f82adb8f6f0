use memory_pool::memory_page::{MemoryPage, MemoryPageSummary};
use memory_pool::{
    BytesStorage, ComputeStorage, IoError, ManagedMemoryHandle, MemoryIds, MemoryLocation,
    MemoryUsage, PageKey, StorageUtilization,
};

fn page(size: u64, alignment: u64, ids: &mut MemoryIds) -> MemoryPage {
    let storage = BytesStorage::default().allocate(size).unwrap();
    MemoryPage::new(
        storage,
        ManagedMemoryHandle::new(ids),
        alignment,
        MemoryLocation::base(3),
    )
}

fn part(page: &MemoryPage, position: usize) -> StorageUtilization {
    page.find(position).unwrap().storage.utilization
}

#[test]
fn a_new_page_is_one_free_slice() {
    let mut ids = MemoryIds::new();
    let page = page(128, 32, &mut ids);
    assert_eq!(page.observe(), vec![true]);
    assert_eq!(part(&page, 0), StorageUtilization { offset: 0, size: 128 });
    let location = page.find(0).unwrap().handle.descriptor().location();
    assert_eq!((location.pool, location.slice, location.init), (3, 0, 1));
    assert_eq!(
        page.find(1).map(|slice| slice.cursor),
        Err(IoError::NotFound { page: PageKey::default() })
    );
}

#[test]
fn reserving_cuts_a_slice_in_two() {
    let mut ids = MemoryIds::new();
    let mut page = page(128, 32, &mut ids);
    let free = page.observe();
    let first = page.try_reserve_with(20, &free, &mut ids).unwrap();
    assert_eq!(page.observe(), vec![false, true]);
    assert_eq!(part(&page, 0), StorageUtilization { offset: 0, size: 20 });
    assert_eq!(page.find(0).unwrap().padding, 12);
    assert_eq!(page.find(0).unwrap().effective_size(), 32);
    assert_eq!(part(&page, 1), StorageUtilization { offset: 32, size: 96 });
    assert_eq!(first.descriptor().slice(), 0);

    let free = page.observe();
    let second = page.try_reserve_with(96, &free, &mut ids).unwrap();
    assert_eq!(second.descriptor().slice(), 1);
    assert_eq!(page.observe(), vec![false, false]);
    // A slice that fits exactly is not cut, and takes no identifier.
    assert_eq!(ids.count_left(), usize::MAX - 2);

    let free = page.observe();
    assert!(page.try_reserve_with(0, &free, &mut ids).is_none());
    assert!(page.try_reserve_with(u64::MAX, &free, &mut ids).is_none());
}

#[test]
fn adjacent_free_slices_are_merged() {
    let mut ids = MemoryIds::new();
    let mut page = page(128, 32, &mut ids);
    let mut handles = Vec::new();
    for _ in 0..4 {
        let free = page.observe();
        handles.push(page.try_reserve_with(32, &free, &mut ids).unwrap());
    }
    let last = handles.pop().unwrap();
    let third = handles.pop().unwrap();
    drop(handles);
    assert_eq!(page.observe(), vec![true, true, false, false]);

    // Two slices of 32 bytes are no slice of 64, until they are merged.
    let free = page.observe();
    assert!(page.try_reserve_with(64, &free, &mut ids).is_none());
    assert_eq!(page.coalesce_with(&free), vec![true, false, false]);
    assert_eq!(part(&page, 0), StorageUtilization { offset: 0, size: 64 });
    assert_eq!(part(&page, 1), StorageUtilization { offset: 64, size: 32 });

    // Those that are in use know that they have moved up.
    assert_eq!(third.descriptor().slice(), 1);
    assert_eq!(last.descriptor().slice(), 2);

    let free = page.observe();
    assert!(page.try_reserve_with(64, &free, &mut ids).is_some());
}

#[test]
fn slices_in_use_keep_free_ones_apart() {
    let mut ids = MemoryIds::new();
    let mut page = page(96, 32, &mut ids);
    let free = page.observe();
    let first = page.try_reserve_with(32, &free, &mut ids).unwrap();
    let free = page.observe();
    let _second = page.try_reserve_with(32, &free, &mut ids).unwrap();
    drop(first);
    let free = page.observe();
    assert_eq!(free, vec![true, false, true]);
    assert_eq!(page.coalesce_with(&free), vec![true, false, true]);
}

#[test]
fn usage_and_summary_count_bytes() {
    let mut ids = MemoryIds::new();
    let mut page = page(128, 32, &mut ids);
    let free = page.observe();
    let _handle = page.try_reserve_with(20, &free, &mut ids).unwrap();
    let free = page.observe();
    assert_eq!(
        page.memory_usage_with(&free),
        MemoryUsage {
            number_allocs: 1,
            bytes_in_use: 20,
            bytes_padding: 12,
            bytes_reserved: 128,
        }
    );
    assert_eq!(
        page.summary_with(&free),
        MemoryPageSummary {
            amount_free: 96,
            amount_full: 32,
            amount_total: 128,
            num_free: 1,
            num_full: 1,
            num_total: 2,
        }
    );
}

#[test]
fn binding_replaces_the_handle_of_a_slice() {
    let mut ids = MemoryIds::new();
    let mut page = page(64, 32, &mut ids);
    let free = page.observe();
    let _reserved = page.try_reserve_with(32, &free, &mut ids).unwrap();
    let assigned = ManagedMemoryHandle::new(&mut ids);
    assert_eq!(page.bind(1, assigned.clone(), 9), Ok(()));
    assert_eq!(assigned.descriptor().slice(), 1);
    assert_eq!(assigned.descriptor().location().pool, 3);
    let slice = page.find(1).unwrap();
    assert_eq!(slice.cursor, 9);
    assert_eq!(slice.handle.descriptor().id, assigned.descriptor().id);

    let other = ManagedMemoryHandle::new(&mut ids);
    assert_eq!(
        page.bind(2, other.clone(), 0),
        Err(IoError::NotFound { page: PageKey::default() })
    );
    assert_eq!(other.descriptor().location().init, 0);
}
