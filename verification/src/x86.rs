//! Pieces of the x86 virtual-machine kernel and its monitor: the COM serial
//! port protocol, QEMU's exit device, and frames taken from the kernel heap.
use vstd::prelude::*;

verus! {

/// I/O port base of COM1.
pub const COM1_PORT_BASE: u16 = 0x3F8;

/// I/O port base of COM2.
pub const COM2_PORT_BASE: u16 = 0x2F8;

/// A 16550-compatible serial port at an I/O port base.
#[derive(Clone, Copy, PartialEq, Eq, Debug, Structural)]
pub struct IsaSerialPort {
    port_base: u16,
}

/// The port writes that set up a serial port at `b` and start its
/// loopback self-test, in order.
pub open spec fn init_writes_spec(b: u16) -> Seq<(u16, u8)> {
    seq![
        ((b + 1) as u16, 0x00u8),
        ((b + 3) as u16, 0x80u8),
        (b, 0x03u8),
        ((b + 1) as u16, 0x00u8),
        ((b + 3) as u16, 0x03u8),
        ((b + 2) as u16, 0xC7u8),
        ((b + 4) as u16, 0x0Bu8),
        ((b + 4) as u16, 0x1Eu8),
        (b, 0xAEu8),
    ]
}

/// Setting the port up runs at 38400 baud: with the divisor latch open
/// (line control 0x80) the divisor 115200 / 38400 = 3 is written, low byte
/// then high byte; then 8 data bits, no parity, one stop bit (0x03, latch
/// closed), FIFO on, and loopback with the test byte 0xAE last.
pub proof fn lemma_serial_init_sequence(b: u16)
    requires
        b <= 0xFFFF - 4,
    ensures
        ({
            let w = init_writes_spec(b);
            &&& w.len() == 9
            &&& w[0].0 == b + 1 && w[0].1 == 0x00u8
            &&& w[1].0 == b + 3 && w[1].1 == 0x80u8
            &&& w[2].0 == b && w[3].0 == b + 1
            &&& w[2].1 as int + 256 * (w[3].1 as int) == 115200int / 38400int
            &&& w[4].0 == b + 3 && w[4].1 == 0x03u8
            &&& w[5].0 == b + 2 && w[5].1 == 0xC7u8
            &&& w[6].0 == b + 4 && w[6].1 == 0x0Bu8
            &&& w[7].0 == b + 4 && w[7].1 == 0x1Eu8
            &&& w[8].0 == b && w[8].1 == 0xAEu8
        }),
{
}

impl IsaSerialPort {
    pub closed spec fn base(&self) -> u16 {
        self.port_base
    }

    /// The port at `port_base`, not yet set up.
    pub fn new_uninit(port_base: u16) -> (p: IsaSerialPort)
        ensures
            p.base() == port_base,
    {
        IsaSerialPort { port_base }
    }

    /// The writes that set the port up: interrupts off, 38400 baud, 8N1,
    /// FIFO on, then loopback mode and a test byte 0xAE.
    pub fn init_writes(&self) -> (w: Vec<(u16, u8)>)
        requires
            self.base() <= 0xFFFF - 4,
        ensures
            w@ == init_writes_spec(self.base()),
    {
        let b = self.port_base;
        let w = vec![
            (b + 1, 0x00u8),
            (b + 3, 0x80u8),
            (b, 0x03u8),
            (b + 1, 0x00u8),
            (b + 3, 0x03u8),
            (b + 2, 0xC7u8),
            (b + 4, 0x0Bu8),
            (b + 4, 0x1Eu8),
            (b, 0xAEu8),
        ];
        assert(w@ =~= init_writes_spec(b));
        w
    }

    /// The port to read the loopback test byte back from.
    pub fn data_port(&self) -> (p: u16)
        ensures
            p == self.base(),
    {
        self.port_base
    }

    /// The last step of setting up: if the test byte came back as `echoed`,
    /// the write that puts the port in normal operation; otherwise the error.
    pub fn finish_init(&self, echoed: u8) -> (r: Result<(u16, u8), &'static str>)
        requires
            self.base() <= 0xFFFF - 4,
        ensures
            echoed == 0xAE ==> r == Ok::<(u16, u8), &'static str>(((self.base() + 4) as u16, 0x0Fu8)),
            echoed != 0xAE ==> r == Err::<(u16, u8), &'static str>("serial port is absent or faulty"),
    {
        if echoed != 0xAE {
            return Err("serial port is absent or faulty");
        }
        Ok((self.port_base + 4, 0x0F))
    }

    /// The line-status port, polled before each byte is sent.
    pub fn line_status_port(&self) -> (p: u16)
        requires
            self.base() <= 0xFFFF - 5,
        ensures
            p == self.base() + 5,
    {
        self.port_base + 5
    }
}

/// Whether a line status says the transmitter can take a byte.
pub fn transmit_ready(status: u8) -> (r: bool)
    ensures
        r == (status & 0x20 != 0),
{
    status & 0x20 != 0
}

/// What the kernel tells QEMU's exit device.
#[derive(Clone, Copy, PartialEq, Eq, Debug, Structural)]
pub enum QemuExitCode {
    Success,
    Failed,
}

impl QemuExitCode {
    pub open spec fn spec_code(self) -> u32 {
        match self {
            QemuExitCode::Success => 0x10,
            QemuExitCode::Failed => 0x11,
        }
    }

    /// The value written to the exit device.
    pub fn code(self) -> (c: u32)
        ensures
            c == self.spec_code(),
    {
        match self {
            QemuExitCode::Success => 0x10,
            QemuExitCode::Failed => 0x11,
        }
    }
}

/// `(status - 1) / 2`, the division truncating toward zero.
pub open spec fn spec_guest_exit_status(status: int) -> int {
    if status >= 1 {
        (status - 1) / 2
    } else {
        -((1 - status) / 2)
    }
}

/// The exit status of QEMU for a code written to its exit device.
pub open spec fn qemu_status_for(code: u32) -> int {
    2 * code + 1
}

/// The guest's exit code from QEMU's exit status, which is twice the code
/// written to the exit device plus one.
pub fn guest_exit_status(status: i32) -> (r: i32)
    requires
        status > i32::MIN,
    ensures
        r == spec_guest_exit_status(status as int),
{
    (status - 1) / 2
}

/// The status QEMU exits with for a code written to its exit device
/// decodes back to that code.
pub proof fn lemma_qemu_exit_round_trip(code: u32)
    ensures
        spec_guest_exit_status(qemu_status_for(code)) == code,
{
}

/// Virtual base of the mirror mapping of physical memory on x86.
pub const MIRROR_BASE_VIRT: u64 = 0xFFFF_FFFF_0000_0000;

/// Takes 4 KiB page frames from the kernel heap.
pub struct HeapFrameAlloc;

impl HeapFrameAlloc {
    /// The physical frame behind a heap page at `virt` in the mirror
    /// mapping, or `None` for the null page of a failed allocation.
    pub fn frame_start(virt: u64) -> (r: Option<u64>)
        requires
            virt != 0 ==> MIRROR_BASE_VIRT <= virt && (virt - MIRROR_BASE_VIRT) % 4096 == 0,
        ensures
            r == (if virt == 0 {
                None
            } else {
                Some((virt - MIRROR_BASE_VIRT) as u64)
            }),
    {
        if virt == 0 {
            return None;
        }
        Some(virt - MIRROR_BASE_VIRT)
    }
}

/// x86 page-table flags of a loaded program segment: present, writable and
/// user-accessible.
pub const USER_SEGMENT_FLAGS: u64 = 0b111;

/// The user pages, the physical frames behind them and the flags to map
/// them with, for a program segment of `size` bytes that the kernel holds
/// at `from` in its mirror mapping and that goes to user address `to`,
/// page by page.
pub fn segment_page_frames(from: u64, size: u64, to: u64) -> (r: Vec<(u64, u64, u64)>)
    requires
        size <= u64::MAX - 0xFFF,
        MIRROR_BASE_VIRT <= from,
        from + (size + 0xFFF) / 4096 * 4096 <= 0x1_0000_0000_0000_0000,
        to + (size + 0xFFF) / 4096 * 4096 <= 0x1_0000_0000_0000_0000,
    ensures
        r@.len() == (size + 0xFFF) / 4096,
        forall|i: int|
            0 <= i < r@.len() ==> #[trigger] r@[i] == (
                (to + i * 4096) as u64,
                (from + i * 4096 - MIRROR_BASE_VIRT) as u64,
                USER_SEGMENT_FLAGS,
            ),
{
    let pages = (size + 0xFFF) / 4096;
    let mut r: Vec<(u64, u64, u64)> = Vec::new();
    let mut i: u64 = 0;
    while i < pages
        invariant
            0 <= i <= pages,
            pages == (size + 0xFFF) / 4096,
            MIRROR_BASE_VIRT <= from,
            from + pages * 4096 <= 0x1_0000_0000_0000_0000,
            to + pages * 4096 <= 0x1_0000_0000_0000_0000,
            r@.len() == i,
            forall|k: int|
                0 <= k < i ==> #[trigger] r@[k] == (
                    (to + k * 4096) as u64,
                    (from + k * 4096 - MIRROR_BASE_VIRT) as u64,
                    USER_SEGMENT_FLAGS,
                ),
        decreases pages - i,
    {
        r.push((to + i * 4096, from + i * 4096 - MIRROR_BASE_VIRT, USER_SEGMENT_FLAGS));
        i += 1;
    }
    r
}

} // verus!
