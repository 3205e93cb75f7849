//! Verified core of a small trusted-execution-environment OS: Sv39 page
//! tables, the edge-call shared-memory protocol between an enclave and its
//! host, syscall dispatch, and simple kernel allocators.
use vstd::prelude::*;

pub mod addr;
pub mod pte;
pub mod pagetable;
pub mod linear_mm;
pub mod region;
pub mod runtime;
pub mod edge;
pub mod syscall;
pub mod host;
pub mod kmalloc;
pub mod enclave;
pub mod x86;
pub mod elf;
