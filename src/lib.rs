//! Address-space bring-up for an AArch64 kernel: the translation tables that map
//! the kernel before the MMU is turned on.
//!
//! - `descriptor`: bit-exact table and page descriptors.
//! - `translation`: a virtual address split into its three table indices.
//! - `slots`: the fixed pools that lend out level-2 and level-3 tables.
//! - `region`: a memory region enumerated page by page.
//! - `space`: the builder, whose state is read as a map from pages to physical pages.
//! - `config`, `logging`: what the board supplies, and the kernel's logger.
use vstd::prelude::*;

pub mod config;
pub mod descriptor;
pub mod error;
pub mod logging;
pub mod region;
pub mod slots;
pub mod space;
pub mod translation;

verus! {

/// The translation granule: 64 KiB pages.
pub const PAGE_SIZE: u64 = 65536;

} // verus!
