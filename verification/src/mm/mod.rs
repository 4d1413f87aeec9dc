//! Memory management: addresses, physical frames and page tables.

pub mod address;
pub mod frame_allocator;
pub mod page_table;

pub use address::PhysAddr;
pub use address::PhysPageNum;
pub use address::VirtAddr;
pub use address::VirtPageNum;
pub use frame_allocator::FrameTracker;
pub use frame_allocator::PhysMemory;
pub use page_table::PTEFlags;
pub use page_table::PageTable;
pub use page_table::PageTableEntry;
