//! Physical memory during bring-up: the firmware map, early reservations,
//! the frame cursor, the runtime allocator and the page-table builder.

pub mod error;
pub mod map;
pub mod early;
pub mod frame;
pub mod init;
pub mod walk;
pub mod allocator;
pub mod free_list;
pub mod coalescing;
pub mod paging;
pub mod physical;
