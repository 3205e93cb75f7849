//! The edge-call area: memory shared between an enclave and its host,
//! through which the enclave asks the host to print, to perform system
//! calls and to read files.
use vstd::prelude::*;
use vstd::slice::slice_subrange;
use bytes::{Buf, BufMut};

verus! {

/// Size of the data buffer of the edge-call area.
pub const EDGE_BUFFER_SIZE: usize = 3072;

/// Size of the encoded system-call request area.
pub const SYSCALL_REQ_SIZE: usize = 256;

/// The big-endian bytes of `v`.
pub open spec fn be_bytes(v: u64) -> Seq<u8> {
    seq![
        (v >> 56u64) as u8,
        (v >> 48u64) as u8,
        (v >> 40u64) as u8,
        (v >> 32u64) as u8,
        (v >> 24u64) as u8,
        (v >> 16u64) as u8,
        (v >> 8u64) as u8,
        v as u8,
    ]
}

/// The number whose big-endian bytes are the first eight of `s`.
pub open spec fn be_u64(s: Seq<u8>) -> u64 {
    ((s[0] as u64) << 56u64) | ((s[1] as u64) << 48u64) | ((s[2] as u64) << 40u64) | ((
    s[3] as u64) << 32u64) | ((s[4] as u64) << 24u64) | ((s[5] as u64) << 16u64) | ((s[6] as u64)
        << 8u64) | (s[7] as u64)
}

/// `s` with the eight bytes at `offset` replaced by the big-endian bytes of `v`.
pub open spec fn with_be_u64(s: Seq<u8>, offset: int, v: u64) -> Seq<u8> {
    s.subrange(0, offset) + be_bytes(v) + s.subrange(offset + 8, s.len() as int)
}

/// Decoding the big-endian bytes of a number gives the number back.
pub proof fn lemma_be_round_trip(v: u64)
    ensures
        be_u64(be_bytes(v)) == v,
{
    let s = be_bytes(v);
    assert(s[0] == (v >> 56u64) as u8 && s[7] == v as u8);
    assert(((((v >> 56u64) as u8) as u64) << 56u64) | ((((v >> 48u64) as u8) as u64) << 48u64) | ((
    ((v >> 40u64) as u8) as u64) << 40u64) | ((((v >> 32u64) as u8) as u64) << 32u64) | ((((v
        >> 24u64) as u8) as u64) << 24u64) | ((((v >> 16u64) as u8) as u64) << 16u64) | ((((v
        >> 8u64) as u8) as u64) << 8u64) | ((v as u8) as u64) == v) by (bit_vector);
}

/// Writes `v` big-endian into the eight bytes of `buf` at `offset`, with
/// `bytes::BufMut::put_u64` on that part of the slice.
#[verifier::external_body]
fn put_u64_be(buf: &mut [u8], offset: usize, v: u64)
    requires
        offset + 8 <= old(buf)@.len(),
    ensures
        final(buf)@ == with_be_u64(old(buf)@, offset as int, v),
{
    (&mut buf[offset..offset + 8]).put_u64(v)
}

/// Reads the big-endian number in the eight bytes of `buf` at `offset`,
/// with `bytes::Buf::get_u64` on that part of the slice.
#[verifier::external_body]
fn get_u64_be(buf: &[u8], offset: usize) -> (v: u64)
    requires
        offset + 8 <= buf@.len(),
    ensures
        v == be_u64(buf@.subrange(offset as int, offset + 8)),
{
    (&buf[offset..offset + 8]).get_u64()
}

/// What an edge call asks of the host, as carried in the `req` field.
#[derive(Clone, Copy, PartialEq, Eq, Debug, Structural)]
pub enum EdgeCallReq {
    EdgeCallInvalid,
    EdgeCallPrint,
    EdgeCallSyscall,
    EdgeCallOpen,
    EdgeCallRead,
    EdgeCallGetSize,
    EdgeCallClose,
}

impl EdgeCallReq {
    /// The number that stands for the request in the `req` field.
    pub open spec fn code(self) -> u32 {
        match self {
            EdgeCallReq::EdgeCallInvalid => 0,
            EdgeCallReq::EdgeCallPrint => 1,
            EdgeCallReq::EdgeCallSyscall => 2,
            EdgeCallReq::EdgeCallOpen => 3,
            EdgeCallReq::EdgeCallRead => 4,
            EdgeCallReq::EdgeCallGetSize => 5,
            EdgeCallReq::EdgeCallClose => 6,
        }
    }

    /// The request that `v` stands for, if any.
    pub open spec fn from_code(v: u32) -> Option<EdgeCallReq> {
        if v == 0 {
            Some(EdgeCallReq::EdgeCallInvalid)
        } else if v == 1 {
            Some(EdgeCallReq::EdgeCallPrint)
        } else if v == 2 {
            Some(EdgeCallReq::EdgeCallSyscall)
        } else if v == 3 {
            Some(EdgeCallReq::EdgeCallOpen)
        } else if v == 4 {
            Some(EdgeCallReq::EdgeCallRead)
        } else if v == 5 {
            Some(EdgeCallReq::EdgeCallGetSize)
        } else if v == 6 {
            Some(EdgeCallReq::EdgeCallClose)
        } else {
            None
        }
    }

    /// The number that stands for the request.
    pub fn to_u32(self) -> (v: u32)
        ensures
            v == self.code(),
    {
        match self {
            EdgeCallReq::EdgeCallInvalid => 0,
            EdgeCallReq::EdgeCallPrint => 1,
            EdgeCallReq::EdgeCallSyscall => 2,
            EdgeCallReq::EdgeCallOpen => 3,
            EdgeCallReq::EdgeCallRead => 4,
            EdgeCallReq::EdgeCallGetSize => 5,
            EdgeCallReq::EdgeCallClose => 6,
        }
    }

    /// The request that `v` stands for, or `None` for an unknown number.
    pub fn try_from_u32(v: u32) -> (r: Option<EdgeCallReq>)
        ensures
            r == Self::from_code(v),
    {
        if v == 0 {
            Some(EdgeCallReq::EdgeCallInvalid)
        } else if v == 1 {
            Some(EdgeCallReq::EdgeCallPrint)
        } else if v == 2 {
            Some(EdgeCallReq::EdgeCallSyscall)
        } else if v == 3 {
            Some(EdgeCallReq::EdgeCallOpen)
        } else if v == 4 {
            Some(EdgeCallReq::EdgeCallRead)
        } else if v == 5 {
            Some(EdgeCallReq::EdgeCallGetSize)
        } else if v == 6 {
            Some(EdgeCallReq::EdgeCallClose)
        } else {
            None
        }
    }
}

/// Turning a request into its number and back gives the request again, and
/// a number that stands for a request is that request's number.
pub proof fn lemma_edge_call_req_round_trip(r: EdgeCallReq, v: u32)
    ensures
        EdgeCallReq::from_code(r.code()) == Some(r),
        EdgeCallReq::from_code(v) matches Some(q) ==> q.code() == v,
{
}

impl From<EdgeCallReq> for u32 {
    fn from(r: EdgeCallReq) -> (v: u32) {
        r.to_u32()
    }
}

impl vstd::std_specs::convert::FromSpecImpl<EdgeCallReq> for u32 {
    open spec fn obeys_from_spec() -> bool {
        true
    }

    open spec fn from_spec(r: EdgeCallReq) -> u32 {
        r.code()
    }
}

/// A system call the enclave asks the host to perform.
#[derive(Clone, Copy, PartialEq, Eq, Debug, Structural)]
pub enum SyscallReq {
    /// Write the first `len` bytes of the data buffer to file descriptor `fd`.
    Write { fd: u64, len: u64 },
}

/// Tag of `SyscallReq::Write` in its encoding.
pub const SYSCALL_WRITE_TAG: u64 = 64;

/// The encoding of a request: tag, then its fields, each a big-endian `u64`.
pub open spec fn syscall_req_bytes(r: SyscallReq) -> Seq<u8> {
    match r {
        SyscallReq::Write { fd, len } => be_bytes(SYSCALL_WRITE_TAG) + be_bytes(fd) + be_bytes(len),
    }
}

/// The request encoded at the start of `s`, if its tag is known.
pub open spec fn parse_syscall_req(s: Seq<u8>) -> Option<SyscallReq> {
    if be_u64(s.subrange(0, 8)) == SYSCALL_WRITE_TAG {
        Some(SyscallReq::Write { fd: be_u64(s.subrange(8, 16)), len: be_u64(s.subrange(16, 24)) })
    } else {
        None
    }
}

impl SyscallReq {
    /// Encodes the request at the start of `buf`.
    pub fn write_to(&self, buf: &mut [u8; 256])
        ensures
            final(buf)@.subrange(0, 24) == syscall_req_bytes(*self),
            final(buf)@.subrange(24, 256) == old(buf)@.subrange(24, 256),
    {
        match *self {
            SyscallReq::Write { fd, len } => {
                put_u64_be(buf, 0, SYSCALL_WRITE_TAG);
                put_u64_be(buf, 8, fd);
                put_u64_be(buf, 16, len);
            },
        }
        assert(buf@.subrange(0, 24) =~= syscall_req_bytes(*self));
        assert(buf@.subrange(24, 256) =~= old(buf)@.subrange(24, 256));
    }

    /// Decodes the request at the start of `buf`.
    pub fn read_from(buf: &[u8; 256]) -> (r: Option<SyscallReq>)
        ensures
            r == parse_syscall_req(buf@),
    {
        let tag = get_u64_be(buf, 0);
        if tag == SYSCALL_WRITE_TAG {
            let fd = get_u64_be(buf, 8);
            let len = get_u64_be(buf, 16);
            Some(SyscallReq::Write { fd, len })
        } else {
            None
        }
    }
}

/// Decoding an encoded request gives the request back.
pub proof fn lemma_syscall_req_round_trip(r: SyscallReq, rest: Seq<u8>)
    ensures
        parse_syscall_req(syscall_req_bytes(r) + rest) == Some(r),
{
    match r {
        SyscallReq::Write { fd, len } => {
            let s = syscall_req_bytes(r) + rest;
            assert(s.subrange(0, 8) =~= be_bytes(SYSCALL_WRITE_TAG));
            assert(s.subrange(8, 16) =~= be_bytes(fd));
            assert(s.subrange(16, 24) =~= be_bytes(len));
            lemma_be_round_trip(SYSCALL_WRITE_TAG);
            lemma_be_round_trip(fd);
            lemma_be_round_trip(len);
        },
    }
}

/// The edge-call area shared by the enclave and the host.
pub struct EdgeMemory {
    pub req: u32,
    pub len: u32,
    pub result: i64,
    pub syscall_req: [u8; 256],
    pub buffer: [u8; 3072],
}

impl EdgeMemory {
    /// The data the buffer holds: its first `len` bytes.
    pub open spec fn buffer_data(&self) -> Seq<u8> {
        self.buffer@.subrange(0, self.len as int)
    }

    /// An all-zero edge-call area.
    pub fn new() -> (m: EdgeMemory)
        ensures
            m.req == 0 && m.len == 0 && m.result == 0,
            m.syscall_req@ == Seq::new(256, |i: int| 0u8),
            m.buffer@ == Seq::new(3072, |i: int| 0u8),
    {
        let m = EdgeMemory { req: 0, len: 0, result: 0, syscall_req: [0u8; 256], buffer: [0u8; 3072] };
        assert(m.syscall_req@ =~= Seq::new(256, |i: int| 0u8));
        assert(m.buffer@ =~= Seq::new(3072, |i: int| 0u8));
        m
    }

    /// Asks the host for the system call `req`.
    pub fn write_syscall_request(&mut self, req: SyscallReq)
        ensures
            final(self).req == EdgeCallReq::EdgeCallSyscall.code(),
            final(self).syscall_req@.subrange(0, 24) == syscall_req_bytes(req),
            final(self).syscall_req@.subrange(24, 256) == old(self).syscall_req@.subrange(24, 256),
            final(self).len == old(self).len,
            final(self).result == old(self).result,
            final(self).buffer == old(self).buffer,
    {
        self.req = EdgeCallReq::EdgeCallSyscall.into();
        req.write_to(&mut self.syscall_req);
    }

    /// The system call the enclave asked for, if its encoding is known.
    pub fn read_syscall_request(&self) -> (r: Option<SyscallReq>)
        ensures
            r == parse_syscall_req(self.syscall_req@),
    {
        SyscallReq::read_from(&self.syscall_req)
    }

    /// What the host's system call returned.
    pub fn read_syscall_result(&self) -> (r: isize)
        requires
            isize::MIN <= self.result <= isize::MAX,
        ensures
            r == self.result,
    {
        self.result as isize
    }

    /// Puts `data` in the buffer and sets `len` to its length.
    pub fn write_buffer(&mut self, data: &[u8])
        requires
            data@.len() <= EDGE_BUFFER_SIZE,
        ensures
            final(self).buffer_data() == data@,
            final(self).len == data@.len(),
            final(self).buffer@.subrange(data@.len() as int, 3072) == old(self).buffer@.subrange(
                data@.len() as int,
                3072,
            ),
            final(self).req == old(self).req,
            final(self).result == old(self).result,
            final(self).syscall_req == old(self).syscall_req,
    {
        let n = data.len();
        let mut i: usize = 0;
        while i < n
            invariant
                0 <= i <= n,
                n == data@.len(),
                n <= 3072,
                self.buffer@.len() == 3072,
                forall|k: int| 0 <= k < i ==> self.buffer@[k] == data@[k],
                forall|k: int| n <= k < 3072 ==> self.buffer@[k] == old(self).buffer@[k],
                self.req == old(self).req,
                self.len == old(self).len,
                self.result == old(self).result,
                self.syscall_req == old(self).syscall_req,
            decreases n - i,
        {
            self.buffer[i] = data[i];
            i += 1;
        }
        self.len = n as u32;
        assert(self.buffer_data() =~= data@);
        assert(self.buffer@.subrange(n as int, 3072) =~= old(self).buffer@.subrange(n as int, 3072));
    }

    /// Asks the host to print `msg`.
    pub fn write_print_request(&mut self, msg: &[u8])
        requires
            msg@.len() <= EDGE_BUFFER_SIZE,
        ensures
            final(self).req == EdgeCallReq::EdgeCallPrint.code(),
            final(self).buffer_data() == msg@,
            final(self).len == msg@.len(),
            final(self).result == old(self).result,
            final(self).syscall_req == old(self).syscall_req,
    {
        self.req = EdgeCallReq::EdgeCallPrint.into();
        self.write_buffer(msg);
    }

    /// The data in the buffer.
    pub fn read_buffer(&self) -> (r: &[u8])
        requires
            self.len <= EDGE_BUFFER_SIZE,
        ensures
            r@ == self.buffer_data(),
    {
        slice_subrange(self.buffer.as_slice(), 0, self.len as usize)
    }
}

/// A system call written into the edge-call area is read back unchanged.
pub proof fn lemma_syscall_request_round_trip(m: EdgeMemory, req: SyscallReq)
    requires
        m.syscall_req@.subrange(0, 24) == syscall_req_bytes(req),
    ensures
        parse_syscall_req(m.syscall_req@) == Some(req),
{
    let s = m.syscall_req@;
    let rest = s.subrange(24, 256);
    assert(s =~= syscall_req_bytes(req) + rest);
    lemma_syscall_req_round_trip(req, rest);
}

/// A file that the enclave reads from the host, one edge call at a time.
///
/// Each operation is a request that the enclave writes into the edge-call
/// area, an edge call that hands control to the host, and a reply that the
/// enclave then reads from the area; this type writes the requests and reads
/// the replies.
#[derive(Clone, Copy, PartialEq, Eq, Debug, Structural)]
pub struct EdgeReader {
    file_obj: u64,
}

impl EdgeReader {
    /// The host's handle of the file.
    pub closed spec fn handle(&self) -> u64 {
        self.file_obj
    }

    /// Asks the host to open the file at `path`.
    pub fn open_request(edge_mem: &mut EdgeMemory, path: &[u8])
        requires
            path@.len() <= EDGE_BUFFER_SIZE,
        ensures
            final(edge_mem).req == EdgeCallReq::EdgeCallOpen.code(),
            final(edge_mem).buffer_data() == path@,
            final(edge_mem).len == path@.len(),
            final(edge_mem).result == old(edge_mem).result,
            final(edge_mem).syscall_req == old(edge_mem).syscall_req,
    {
        edge_mem.req = EdgeCallReq::EdgeCallOpen.into();
        edge_mem.write_buffer(path);
    }

    /// The opened file, from the host's reply, or `None` when the host
    /// reports failure (a nonzero `req`).
    pub fn open_reply(edge_mem: &EdgeMemory) -> (r: Option<EdgeReader>)
        ensures
            edge_mem.req == 0 <==> r is Some,
            r matches Some(f) ==> f.handle() == be_u64(edge_mem.buffer@.subrange(0, 8)),
    {
        if edge_mem.req != 0 {
            None
        } else {
            Some(EdgeReader { file_obj: get_u64_be(edge_mem.buffer.as_slice(), 0) })
        }
    }

    /// Asks the host for up to `len` bytes of the file.
    pub fn read_request(&self, edge_mem: &mut EdgeMemory, len: usize)
        ensures
            final(edge_mem).req == EdgeCallReq::EdgeCallRead.code(),
            final(edge_mem).buffer@ == with_be_u64(old(edge_mem).buffer@, 0, self.handle()),
            final(edge_mem).len == len as u32,
            final(edge_mem).result == old(edge_mem).result,
            final(edge_mem).syscall_req == old(edge_mem).syscall_req,
    {
        edge_mem.req = EdgeCallReq::EdgeCallRead.into();
        put_u64_be(&mut edge_mem.buffer, 0, self.file_obj);
        edge_mem.len = len as u32;
    }

    /// Copies the data of the host's reply to a read into `dest` and returns
    /// how much it was; `None` where the host reports failure, or where the
    /// reply does not hold exactly `dest.len()` bytes.
    pub fn read_reply(edge_mem: &EdgeMemory, dest: &mut Vec<u8>) -> (r: Option<usize>)
        ensures
            r is Some <==> (edge_mem.req == 0 && edge_mem.len <= EDGE_BUFFER_SIZE && edge_mem.len
                == old(dest)@.len()),
            r matches Some(n) ==> n == edge_mem.len && final(dest)@ == edge_mem.buffer_data(),
            r is None ==> final(dest)@ == old(dest)@,
    {
        if edge_mem.req != 0 || edge_mem.len as usize > EDGE_BUFFER_SIZE || edge_mem.len as usize
            != dest.len() {
            return None;
        }
        let data = edge_mem.read_buffer();
        let n = data.len();
        let mut i: usize = 0;
        while i < n
            invariant
                0 <= i <= n,
                n == data@.len(),
                dest@.len() == n,
                forall|k: int| 0 <= k < i ==> dest@[k] == data@[k],
            decreases n - i,
        {
            dest.set(i, data[i]);
            i += 1;
        }
        assert(dest@ =~= data@);
        Some(edge_mem.len as usize)
    }

    /// Asks the host for the size of the file.
    pub fn size_request(&self, edge_mem: &mut EdgeMemory)
        ensures
            final(edge_mem).req == EdgeCallReq::EdgeCallGetSize.code(),
            final(edge_mem).buffer@ == with_be_u64(old(edge_mem).buffer@, 0, self.handle()),
            final(edge_mem).len == old(edge_mem).len,
            final(edge_mem).result == old(edge_mem).result,
            final(edge_mem).syscall_req == old(edge_mem).syscall_req,
    {
        edge_mem.req = EdgeCallReq::EdgeCallGetSize.into();
        put_u64_be(&mut edge_mem.buffer, 0, self.file_obj);
    }

    /// The size from the host's reply, or `None` when the host reports failure.
    pub fn size_reply(edge_mem: &EdgeMemory) -> (r: Option<u64>)
        ensures
            edge_mem.req == 0 <==> r is Some,
            r matches Some(n) ==> n == be_u64(edge_mem.buffer@.subrange(0, 8)),
    {
        if edge_mem.req != 0 {
            None
        } else {
            Some(get_u64_be(edge_mem.buffer.as_slice(), 0))
        }
    }

    /// Asks the host to close the file.
    pub fn close_request(self, edge_mem: &mut EdgeMemory)
        ensures
            final(edge_mem).req == EdgeCallReq::EdgeCallClose.code(),
            final(edge_mem).buffer@ == with_be_u64(old(edge_mem).buffer@, 0, self.handle()),
            final(edge_mem).len == old(edge_mem).len,
            final(edge_mem).result == old(edge_mem).result,
            final(edge_mem).syscall_req == old(edge_mem).syscall_req,
    {
        edge_mem.req = EdgeCallReq::EdgeCallClose.into();
        put_u64_be(&mut edge_mem.buffer, 0, self.file_obj);
    }
}

/// The file handle that a request from the enclave carries in the first
/// eight bytes of the buffer.
pub fn file_handle(edge_mem: &EdgeMemory) -> (h: u64)
    ensures
        h == be_u64(edge_mem.buffer@.subrange(0, 8)),
{
    get_u64_be(edge_mem.buffer.as_slice(), 0)
}

/// The host's reply to an open: the handle of the opened file.
pub fn edge_open_reply(edge_mem: &mut EdgeMemory, handle: u64)
    ensures
        final(edge_mem).req == 0,
        final(edge_mem).buffer@ == with_be_u64(old(edge_mem).buffer@, 0, handle),
        final(edge_mem).len == old(edge_mem).len,
        final(edge_mem).result == old(edge_mem).result,
        final(edge_mem).syscall_req == old(edge_mem).syscall_req,
{
    put_u64_be(&mut edge_mem.buffer, 0, handle);
    edge_mem.req = 0;
}

/// The host's reply to a size request: the length of the file.
pub fn edge_get_size(edge_mem: &mut EdgeMemory, file_len: u64)
    ensures
        final(edge_mem).req == 0,
        final(edge_mem).buffer@ == with_be_u64(old(edge_mem).buffer@, 0, file_len),
        final(edge_mem).len == old(edge_mem).len,
        final(edge_mem).result == old(edge_mem).result,
        final(edge_mem).syscall_req == old(edge_mem).syscall_req,
{
    put_u64_be(&mut edge_mem.buffer, 0, file_len);
    edge_mem.req = 0;
}

/// The host's reply to a read, once it has read `bytes_read` bytes of the
/// file into the start of the buffer.
pub fn edge_read_reply(edge_mem: &mut EdgeMemory, bytes_read: usize)
    requires
        bytes_read <= EDGE_BUFFER_SIZE,
    ensures
        final(edge_mem).req == 0,
        final(edge_mem).len == bytes_read,
        final(edge_mem).buffer == old(edge_mem).buffer,
        final(edge_mem).result == old(edge_mem).result,
        final(edge_mem).syscall_req == old(edge_mem).syscall_req,
{
    edge_mem.len = bytes_read as u32;
    edge_mem.req = 0;
}

/// The host's reply to a request that failed.
pub fn on_error(edge_mem: &mut EdgeMemory)
    ensures
        final(edge_mem).req == 1,
        final(edge_mem).len == old(edge_mem).len,
        final(edge_mem).buffer == old(edge_mem).buffer,
        final(edge_mem).result == old(edge_mem).result,
        final(edge_mem).syscall_req == old(edge_mem).syscall_req,
{
    edge_mem.req = 1;
}

/// A handle written by the host's reply to an open is the handle the
/// enclave reads from it; likewise for a size.
pub proof fn lemma_reply_round_trip(s: Seq<u8>, v: u64)
    requires
        s.len() >= 8,
    ensures
        be_u64(with_be_u64(s, 0, v).subrange(0, 8)) == v,
{
    assert(with_be_u64(s, 0, v).subrange(0, 8) =~= be_bytes(v));
    lemma_be_round_trip(v);
}

/// The chunks that a message of `total` bytes is printed in: consecutive
/// ranges of `EDGE_BUFFER_SIZE` bytes, the last one possibly shorter, and
/// none for an empty message.
pub fn print_chunks(total: usize) -> (r: Vec<(usize, usize)>)
    ensures
        r@.len() == (total + EDGE_BUFFER_SIZE - 1) / (EDGE_BUFFER_SIZE as int),
        forall|i: int|
            0 <= i < r@.len() ==> #[trigger] r@[i] == (
                (i * EDGE_BUFFER_SIZE) as usize,
                if (i + 1) * EDGE_BUFFER_SIZE <= total {
                    ((i + 1) * EDGE_BUFFER_SIZE) as usize
                } else {
                    total
                },
            ),
{
    let count = total / EDGE_BUFFER_SIZE + if total % EDGE_BUFFER_SIZE != 0 {
        1
    } else {
        0
    };
    assert(count == (total + EDGE_BUFFER_SIZE - 1) / (EDGE_BUFFER_SIZE as int));
    let mut r: Vec<(usize, usize)> = Vec::new();
    let mut i: usize = 0;
    while i < count
        invariant
            0 <= i <= count,
            count == (total + EDGE_BUFFER_SIZE - 1) / (EDGE_BUFFER_SIZE as int),
            r@.len() == i,
            forall|k: int|
                0 <= k < i ==> #[trigger] r@[k] == (
                    (k * EDGE_BUFFER_SIZE) as usize,
                    if (k + 1) * EDGE_BUFFER_SIZE <= total {
                        ((k + 1) * EDGE_BUFFER_SIZE) as usize
                    } else {
                        total
                    },
                ),
        decreases count - i,
    {
        let start = i * EDGE_BUFFER_SIZE;
        let end = if total - start >= EDGE_BUFFER_SIZE {
            start + EDGE_BUFFER_SIZE
        } else {
            total
        };
        r.push((start, end));
        i += 1;
    }
    r
}

/// Progress of a read of `total` bytes through the edge-call buffer, one
/// buffer-full at a time.
#[derive(Clone, Copy, PartialEq, Eq, Debug, Structural)]
pub struct ChunkedRead {
    pub offset: usize,
    pub remaining: usize,
    pub bytes_read: usize,
    pub finished: Option<usize>,
}

impl ChunkedRead {
    /// Nothing read yet of `total` bytes.
    pub fn start(total: usize) -> (c: ChunkedRead)
        ensures
            c == (ChunkedRead { offset: 0, remaining: total, bytes_read: 0, finished: None }),
    {
        ChunkedRead { offset: 0, remaining: total, bytes_read: 0, finished: None }
    }

    pub open spec fn chunk_len(&self) -> usize {
        if self.remaining > EDGE_BUFFER_SIZE {
            EDGE_BUFFER_SIZE
        } else {
            self.remaining
        }
    }

    /// Where the next read goes in the destination, and how many bytes it asks
    /// for; `None` once the read is over.
    pub fn next_chunk(&self) -> (r: Option<(usize, usize)>)
        ensures
            r == (if self.finished is Some {
                None
            } else {
                Some((self.offset, self.chunk_len()))
            }),
            r matches Some((o, l)) ==> {
                &&& o == self.offset
                &&& l <= self.remaining
                &&& self.remaining <= EDGE_BUFFER_SIZE ==> l == self.remaining
                &&& self.remaining > EDGE_BUFFER_SIZE ==> l == EDGE_BUFFER_SIZE
            },
    {
        if self.finished.is_some() {
            None
        } else if self.remaining > EDGE_BUFFER_SIZE {
            Some((self.offset, EDGE_BUFFER_SIZE))
        } else {
            Some((self.offset, self.remaining))
        }
    }

    /// The state after the read of the current chunk gave `n` bytes.
    pub open spec fn after_chunk(self, n: usize) -> ChunkedRead {
        if self.remaining > EDGE_BUFFER_SIZE {
            if n < EDGE_BUFFER_SIZE {
                ChunkedRead { bytes_read: (self.bytes_read + n) as usize, finished: Some(n), ..self }
            } else {
                ChunkedRead {
                    offset: (self.offset + EDGE_BUFFER_SIZE) as usize,
                    remaining: (self.remaining - EDGE_BUFFER_SIZE) as usize,
                    bytes_read: (self.bytes_read + n) as usize,
                    finished: None,
                }
            }
        } else {
            ChunkedRead {
                bytes_read: (self.bytes_read + n) as usize,
                finished: Some((self.bytes_read + n) as usize),
                ..self
            }
        }
    }

    /// Records that the read of the current chunk gave `n` bytes. A short
    /// read of a full chunk ends the read with `n`; the last chunk ends it
    /// with all bytes read.
    pub fn chunk_done(&mut self, n: usize)
        requires
            old(self).finished is None,
            n <= old(self).chunk_len(),
            old(self).bytes_read + old(self).remaining <= usize::MAX,
            old(self).offset + old(self).remaining <= usize::MAX,
        ensures
            *final(self) == old(self).after_chunk(n),
            final(self).finished is None ==> final(self).bytes_read + final(self).remaining
                <= usize::MAX,
            final(self).finished is None ==> final(self).offset + final(self).remaining
                <= usize::MAX,
    {
        if self.remaining > EDGE_BUFFER_SIZE {
            self.bytes_read = self.bytes_read + n;
            if n < EDGE_BUFFER_SIZE {
                self.finished = Some(n);
            } else {
                self.offset = self.offset + EDGE_BUFFER_SIZE;
                self.remaining = self.remaining - EDGE_BUFFER_SIZE;
            }
        } else {
            self.bytes_read = self.bytes_read + n;
            self.finished = Some(self.bytes_read);
        }
    }
}

/// A chunk never asks for more than is left, and asks for a whole buffer
/// exactly when more than a buffer is left.
pub proof fn lemma_read_chunk_len(c: ChunkedRead)
    ensures
        c.chunk_len() <= c.remaining,
        c.remaining <= EDGE_BUFFER_SIZE ==> c.chunk_len() == c.remaining,
        c.remaining > EDGE_BUFFER_SIZE ==> c.chunk_len() == EDGE_BUFFER_SIZE,
{
}

/// A read goes on only after a full chunk: the next chunk then starts one
/// buffer further on, the bytes still to read shrink by as much, and the
/// count grows by what the chunk gave; so while a read of `total` bytes is
/// in progress, chunk `k` starts at `k` buffers.
pub proof fn lemma_read_chunk_advances(c: ChunkedRead, n: usize)
    requires
        c.finished is None,
        n <= c.chunk_len(),
        c.offset + c.remaining <= usize::MAX,
        c.bytes_read + c.remaining <= usize::MAX,
    ensures
        (c.after_chunk(n).finished is None) == (c.remaining > EDGE_BUFFER_SIZE && n == EDGE_BUFFER_SIZE),
        c.after_chunk(n).finished is None ==> {
            &&& c.after_chunk(n).offset == c.offset + EDGE_BUFFER_SIZE
            &&& c.after_chunk(n).remaining == c.remaining - EDGE_BUFFER_SIZE
            &&& c.after_chunk(n).offset + c.after_chunk(n).remaining == c.offset + c.remaining
            &&& c.after_chunk(n).bytes_read == c.bytes_read + n
        },
        c.after_chunk(n).bytes_read == c.bytes_read + n,
{
}

/// The state after the host answered successive chunk reads with `counts`,
/// stopping where the read ends.
pub open spec fn run_read(c: ChunkedRead, counts: Seq<usize>) -> ChunkedRead
    decreases counts.len(),
{
    if c.finished is Some || counts.len() == 0 {
        c
    } else {
        run_read(c.after_chunk(counts[0]), counts.drop_first())
    }
}

/// Whether `counts` are answers a read of `total` bytes can get: each at
/// most the chunk asked for.
pub open spec fn read_counts_fit(total: nat, counts: Seq<usize>) -> bool
    decreases total,
{
    counts.len() > 0 && if total > EDGE_BUFFER_SIZE {
        counts[0] <= EDGE_BUFFER_SIZE && (counts[0] < EDGE_BUFFER_SIZE || read_counts_fit(
            (total - EDGE_BUFFER_SIZE) as nat,
            counts.drop_first(),
        ))
    } else {
        counts[0] <= total
    }
}

/// How a read of `total` bytes ends when the host answers its chunks with
/// `counts`: whether a full chunk came back short, and the count that
/// chunk gave, or else the sum of the counts.
pub open spec fn read_outcome(total: nat, counts: Seq<usize>) -> (bool, int)
    decreases total,
{
    if counts.len() == 0 {
        (false, 0)
    } else if total > EDGE_BUFFER_SIZE {
        if counts[0] < EDGE_BUFFER_SIZE {
            (true, counts[0] as int)
        } else {
            let (short, rest) = read_outcome((total - EDGE_BUFFER_SIZE) as nat, counts.drop_first());
            if short {
                (true, rest)
            } else {
                (false, counts[0] + rest)
            }
        }
    } else {
        (false, counts[0] as int)
    }
}

/// What a read of `total` bytes returns when the host answers its chunks
/// with `counts`: where a full chunk comes back short, only that chunk's
/// count; otherwise the sum of the counts.
pub open spec fn read_result(total: nat, counts: Seq<usize>) -> int {
    read_outcome(total, counts).1
}

proof fn lemma_run_read_from(c: ChunkedRead, counts: Seq<usize>)
    requires
        c.finished is None,
        c.bytes_read + c.remaining <= usize::MAX,
        read_counts_fit(c.remaining as nat, counts),
    ensures
        0 <= read_outcome(c.remaining as nat, counts).1 <= c.remaining,
        run_read(c, counts).finished == Some(
            (if read_outcome(c.remaining as nat, counts).0 {
                read_outcome(c.remaining as nat, counts).1
            } else {
                c.bytes_read + read_outcome(c.remaining as nat, counts).1
            }) as usize,
        ),
    decreases c.remaining,
{
    let n = counts[0];
    let c1 = c.after_chunk(n);
    let rest = counts.drop_first();
    assert(run_read(c, counts) == run_read(c1, rest));
    if c.remaining > EDGE_BUFFER_SIZE && n >= EDGE_BUFFER_SIZE {
        lemma_run_read_from(c1, rest);
    }
}

/// A read driven to its end returns what the host's answers add up to,
/// except that a short answer to a full chunk ends it with that answer
/// alone.
pub proof fn lemma_chunked_read_result(total: usize, counts: Seq<usize>)
    requires
        read_counts_fit(total as nat, counts),
    ensures
        run_read(
            ChunkedRead { offset: 0, remaining: total, bytes_read: 0, finished: None },
            counts,
        ).finished == Some(read_result(total as nat, counts) as usize),
{
    lemma_run_read_from(ChunkedRead { offset: 0, remaining: total, bytes_read: 0, finished: None }, counts);
}

} // verus!