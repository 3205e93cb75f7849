# new_tee_os

The verified core of a small operating system for trusted execution
environments (Keystone enclaves on RISC-V, and an x86 virtual machine).

`src/` is the library, checked by Verus:

- `addr`, `pte`, `pagetable`: Sv39 addresses, page-table entries and
  three-level page tables over any `PageManager`, with a model of the table
  memory and of the hardware walk (`translate`).
- `linear_mm`: a bump page manager over a fixed region.
- `region`, `runtime`: mapping runs of pages, the boot page-table layout of
  the enclave runtime, its mirror mapping and page-fault handling.
- `edge`, `host`, `syscall`: the edge-call area shared between enclave and
  host, its request encodings, both sides of the protocol, and the system
  call tables.
- `kmalloc`: a bump allocator and a non-reentrant lock around allocators.
- `enclave`, `x86`, `elf`: requests to the Keystone driver, the x86 serial
  and exit devices, and ELF header checks.

`app/` is the host program that loads and runs an enclave (device access,
files, printing), built on the library. `tests/` holds the tests.
