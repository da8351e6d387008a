//! Physical-memory bootstrap allocator for a bare-metal kernel.
//!
//! Given the boot loader's table of physical memory regions and the
//! direct-map offset, the library sizes a free-page bitmap, builds it,
//! and serves page-granularity allocate/free requests from it.
//! Every operation carries a contract over a mathematical view of the
//! bitmap (a sequence of booleans, one per page).

pub mod addr;
pub mod bitmap;
pub mod boot;
pub mod memmap;
pub mod paging;
pub mod palloc;
pub mod shutdown;
