//! Memory pools whose pages keep one key for life.
//!
//! A pool hands out memory in slices. [`sliced_pool::SlicedPool`] cuts pages of one
//! size into slices; [`exclusive_pool::ExclusiveMemoryPool`] hands out a page as a
//! whole. Both keep their pages under [`page_key::PageKey`]s, and both find a slice
//! by the location that its handle has been told.
//!
//! Whether a slice is free, and where a handle currently says it is, depends on what
//! other threads hold and write. The methods that look are thin: they observe, and
//! hand what they saw to a method whose name ends in `_with` or `_at`, which says
//! exactly what it does for every observation.

pub mod align;
pub mod error;
pub mod exclusive_laws;
pub mod exclusive_pool;
pub mod exclusive_promises;
pub mod handle;
pub mod laws;
pub mod memory_page;
pub mod page_key;
pub mod page_map;
pub mod slice;
pub mod sliced_laws;
pub mod sliced_pool;
pub mod sliced_promises;
pub mod storage;
pub mod tiling;
pub mod usage;

pub use align::optimal_align;
pub use error::IoError;
pub use exclusive_pool::ExclusiveMemoryPool;
pub use handle::{
    ManagedMemoryBinding, ManagedMemoryDescriptor, ManagedMemoryHandle, ManagedMemoryId,
    MemoryHandle, MemoryIds, MemoryLocation, SharedMemoryBindings,
};
pub use page_key::PageKey;
pub use slice::Slice;
pub use sliced_pool::SlicedPool;
pub use storage::{BytesStorage, ComputeStorage, StorageHandle, StorageId, StorageUtilization};
pub use usage::MemoryUsage;
