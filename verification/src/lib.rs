//! A library OS's memory management and utility layers for SGX enclaves, with their contracts
//! proved: address ranges and free space, the areas of a chunk, shared mappings, page commit
//! tracking, enclave memory decisions, and small utilities.
mod errno;
pub mod vm_range;
pub mod vm_layout;
pub mod vm_perms;
pub mod vm_util;
pub mod free_space_manager;
pub mod process_vm;
pub mod vm_area;
pub mod vm_chunk_manager;
pub mod vm_epc;
pub mod shm_manager;
pub mod page_tracker;
pub mod vm_manager;
pub mod chunk;
pub mod util;

pub use errno::Errno;
