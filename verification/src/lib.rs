//! Address translation for a three-level paging scheme with 56-bit physical
//! addresses, 39-bit virtual addresses and pages of 4 KiB.
//!
//! - `address`: the four address and page-number types, their widths, and
//!   the conversions between them.
//! - `flags` and `entry`: the flag bits and the packed 64-bit page-table
//!   entry.
//! - `memory`: the frames that page tables live in, and their allocator.
//! - `page_table`: the table itself: making one, mapping, unmapping and
//!   looking up.

pub mod address;
pub mod entry;
pub mod flags;
pub mod memory;
pub mod page_table;

pub use address::{PhysAddr, PhysPageNum, VirtAddr, VirtPageNum};
pub use entry::PageTableEntry;
pub use flags::PTEFlags;
pub use memory::{FrameTracker, PhysMemory};
pub use page_table::PageTable;
