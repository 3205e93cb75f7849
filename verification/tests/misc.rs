use new_tee_os::elf::{check_elf64_x64, get_pages, ElfCheckError};
use new_tee_os::enclave::{
    create_request, eid_request, finalize_request, ioctl_succeeded, map_enclave_status, run_request,
    utm_request, CreateEnclave, EnclaveStatus, RunEnclave, RuntimeParams,
};
use new_tee_os::kmalloc::{Kmalloc, KmallocUnlocked, LeakySlabAlloc, LeakySlabAllocState, LockedHeap};
use new_tee_os::x86::{
    guest_exit_status, segment_page_frames, transmit_ready, USER_SEGMENT_FLAGS, HeapFrameAlloc, IsaSerialPort, QemuExitCode, COM1_PORT_BASE,
};

#[test]
fn leaky_slab_without_memory() {
    let mut s = LeakySlabAllocState::new();
    assert_eq!(s.alloc_fallible(0, 1), Some(1));
    assert_eq!(s.alloc_fallible(1, 1), None);
    assert_eq!(s.allocate(8, 8), 0);
    s.dealloc(1, 16);
    let mut a = LeakySlabAlloc::new();
    assert_eq!(a.allocate(0, 1), 1);
    assert_eq!(a.allocate(4, 4), 0);
    a.dealloc(1, 4);
    assert_eq!(a.deallocated_bytes(), 4);
}

struct CountingHeap {
    next: usize,
    freed: usize,
}

impl KmallocUnlocked for CountingHeap {
    fn inits(&self, start: usize, _size: usize, next: Self) -> bool {
        next.next == start && next.freed == self.freed
    }
    fn allocates(&self, size: usize, _align: usize, r: usize, next: Self) -> bool {
        r == self.next && next.next == self.next + size && next.freed == self.freed
    }
    fn deallocs(&self, _ptr: usize, size: usize, _align: usize, next: Self) -> bool {
        next.next == self.next && next.freed == self.freed + size
    }
    fn init(&mut self, start: usize, _size: usize) {
        self.next = start;
    }
    fn allocate(&mut self, size: usize, _align: usize) -> usize {
        let r = self.next;
        self.next += size;
        r
    }
    fn dealloc(&mut self, _ptr: usize, size: usize, _align: usize) {
        self.freed += size;
    }
}

#[test]
fn locked_heap_forwards() {
    let mut h = LockedHeap::new(CountingHeap { next: 0, freed: 0 });
    h.init(0x1000, 0x100);
    assert_eq!(h.allocate(16, 8), 0x1000);
    assert_eq!(h.allocate(16, 8), 0x1010);
    h.dealloc(0x1000, 16, 8);
}

#[test]
fn enclave_status_codes() {
    let r = |error, value| RunEnclave { eid: 0, error, value };
    assert_eq!(map_enclave_status(&r(0, 3)), EnclaveStatus::Done(3));
    assert_eq!(map_enclave_status(&r(100011, 0)), EnclaveStatus::EdgeCallHost);
    assert_eq!(map_enclave_status(&r(100002, 0)), EnclaveStatus::Interrupted);
    assert_eq!(map_enclave_status(&r(7, 0)), EnclaveStatus::UnknownError(7));
}

#[test]
fn enclave_requests() {
    let c = create_request(256);
    assert_eq!(c, CreateEnclave { min_pages: 256, ..CreateEnclave::default() });
    let u = utm_request(3, 0x1000);
    assert_eq!((u.eid, u.params.untrusted_size, u.min_pages), (3, 0x1000, 0));
    let p = RuntimeParams { runtime_entry: 1, user_entry: 2, untrusted_ptr: 3, untrusted_size: 4 };
    let f = finalize_request(3, 10, 20, 30, p);
    assert_eq!((f.eid, f.runtime_paddr, f.user_paddr, f.free_paddr, f.params), (3, 10, 20, 30, p));
    assert_eq!(eid_request(5), CreateEnclave { eid: 5, ..CreateEnclave::default() });
    assert_eq!(run_request(4), RunEnclave { eid: 4, error: 0, value: 0 });
    assert!(ioctl_succeeded(0));
    assert!(!ioctl_succeeded(-22));
}

#[test]
fn serial_port_setup() {
    let p = IsaSerialPort::new_uninit(COM1_PORT_BASE);
    let w = p.init_writes();
    assert_eq!(w.len(), 9);
    assert_eq!(w[0], (0x3F9, 0x00));
    assert_eq!(w[8], (0x3F8, 0xAE));
    assert_eq!(p.data_port(), 0x3F8);
    assert_eq!(p.finish_init(0xAE), Ok((0x3FC, 0x0F)));
    assert_eq!(p.finish_init(0x00), Err("serial port is absent or faulty"));
    assert_eq!(p.line_status_port(), 0x3FD);
    assert!(transmit_ready(0x20));
    assert!(!transmit_ready(0xDF));
}

#[test]
fn qemu_exit() {
    assert_eq!(QemuExitCode::Success.code(), 0x10);
    assert_eq!(QemuExitCode::Failed.code(), 0x11);
    assert_eq!(guest_exit_status(0x21), 0x10);
    assert_eq!(guest_exit_status(1), 0);
    assert_eq!(guest_exit_status(0), 0);
    assert_eq!(guest_exit_status(-3), -2);
}

#[test]
fn heap_frames() {
    assert_eq!(HeapFrameAlloc::frame_start(0), None);
    assert_eq!(HeapFrameAlloc::frame_start(0xFFFF_FFFF_0000_5000), Some(0x5000));
}

#[test]
fn elf_checks() {
    assert_eq!(get_pages(0), 0);
    assert_eq!(get_pages(1), 1);
    assert_eq!(get_pages(4096), 1);
    assert_eq!(get_pages(4097), 2);
    let mut ident = [0u8; 16];
    ident[0..4].copy_from_slice(b"\x7FELF");
    assert_eq!(check_elf64_x64(&ident, 62, 2), Ok(()));
    assert_eq!(check_elf64_x64(&ident, 40, 2), Err(ElfCheckError::UnsupportedTarget));
    assert_eq!(check_elf64_x64(&ident, 62, 3), Err(ElfCheckError::UnsupportedTarget));
    ident[1] = b'X';
    assert_eq!(check_elf64_x64(&ident, 62, 2), Err(ElfCheckError::InvalidMagic));
    // the magic number is checked before the target
    assert_eq!(check_elf64_x64(&ident, 40, 3), Err(ElfCheckError::InvalidMagic));
}

#[test]
fn segment_frames_and_flags() {
    let from = 0xFFFF_FFFF_0010_0000;
    let r = segment_page_frames(from, 0x1001, 0x40_0000);
    assert_eq!(r, vec![(0x40_0000, 0x10_0000, 0b111), (0x40_1000, 0x10_1000, 0b111)]);
    assert_eq!(USER_SEGMENT_FLAGS, 0b111);
    assert!(segment_page_frames(from, 0, 0x40_0000).is_empty());
}

#[test]
fn locked_heap_is_ready_when_new() {
    let mut h = LockedHeap::new(CountingHeap { next: 0x2000, freed: 0 });
    assert_eq!(h.allocate(8, 8), 0x2000);
    assert_eq!(h.inner_ref().next, 0x2008);
    h.dealloc(0x2000, 8, 8);
    assert_eq!(h.inner_ref().freed, 8);
}
