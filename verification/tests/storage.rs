use memory_pool::{
    BytesStorage, ComputeStorage, IoError, MemoryUsage, StorageHandle, StorageUtilization,
};

#[test]
fn allocations_differ_and_cover_what_was_asked_for() {
    let mut storage = BytesStorage::default();
    let first = storage.allocate(64).unwrap();
    let second = storage.allocate(0).unwrap();
    assert_eq!(first.utilization, StorageUtilization { offset: 0, size: 64 });
    assert_eq!(second.utilization, StorageUtilization { offset: 0, size: 0 });
    assert_eq!(first.id.value, 0);
    assert_eq!(second.id.value, 1);

    // An identifier is not used again.
    storage.dealloc(first.id);
    storage.dealloc(first.id);
    assert_eq!(storage.allocate(8).unwrap().id.value, 2);
}

#[test]
fn what_cannot_be_addressed_is_too_big() {
    let mut storage = BytesStorage::default();
    assert_eq!(
        storage.allocate(u64::MAX),
        Err(IoError::BufferTooBig { size: u64::MAX })
    );
    assert_eq!(storage.allocate(1).unwrap().id.value, 0);
}

#[test]
fn a_storage_handle_tells_its_part() {
    let mut storage = BytesStorage::default();
    let handle = StorageHandle {
        utilization: StorageUtilization { offset: 32, size: 16 },
        ..storage.allocate(64).unwrap()
    };
    assert_eq!(handle.offset(), 32);
    assert_eq!(handle.size(), 16);
}

#[test]
fn usages_add_up() {
    let usage = MemoryUsage {
        number_allocs: 1,
        bytes_in_use: 20,
        bytes_padding: 12,
        bytes_reserved: 64,
    };
    assert_eq!(MemoryUsage::none().combine(usage), usage);
    assert_eq!(
        usage.combine(usage),
        MemoryUsage {
            number_allocs: 2,
            bytes_in_use: 40,
            bytes_padding: 24,
            bytes_reserved: 128,
        }
    );
}
