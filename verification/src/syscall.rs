//! Linux system calls of user programs: the tables that map call numbers to
//! handlers, and the chunked forwarding of `write` to the host.
use vstd::prelude::*;
use crate::edge::{EdgeMemory, SyscallReq, EDGE_BUFFER_SIZE, syscall_req_bytes, EdgeCallReq};

verus! {

/// Handlers of one-argument system calls.
#[derive(Clone, Copy, PartialEq, Eq, Debug, Structural)]
pub enum Syscall1 {
    /// `exit(status)`
    Exit,
}

/// Handlers of three-argument system calls.
#[derive(Clone, Copy, PartialEq, Eq, Debug, Structural)]
pub enum Syscall3 {
    /// `write(fd, buf, len)`
    Write,
}

/// A system call handler, by the number of arguments it takes.
#[derive(Clone, Copy, PartialEq, Eq, Debug, Structural)]
pub enum SyscallHandler {
    Syscall1(Syscall1),
    Syscall3(Syscall3),
}

/// Number of `write` in the generic Linux table.
pub const SYS_WRITE: u32 = 64;

/// Number of `exit` in the generic Linux table.
pub const SYS_EXIT: u32 = 93;

/// The handler of call `nr` in the generic Linux table (as on RISC-V).
pub open spec fn spec_table_generic(nr: u32) -> Option<SyscallHandler> {
    if nr == SYS_WRITE {
        Some(SyscallHandler::Syscall3(Syscall3::Write))
    } else if nr == SYS_EXIT {
        Some(SyscallHandler::Syscall1(Syscall1::Exit))
    } else {
        None
    }
}

/// The handler of call `nr` in the generic Linux table (as on RISC-V).
pub fn table_generic(nr: u32) -> (r: Option<SyscallHandler>)
    ensures
        r == spec_table_generic(nr),
        nr == 64 ==> r == Some(SyscallHandler::Syscall3(Syscall3::Write)),
        nr == 93 ==> r == Some(SyscallHandler::Syscall1(Syscall1::Exit)),
        nr != 64 && nr != 93 ==> r is None,
{
    if nr == SYS_WRITE {
        Some(SyscallHandler::Syscall3(Syscall3::Write))
    } else if nr == SYS_EXIT {
        Some(SyscallHandler::Syscall1(Syscall1::Exit))
    } else {
        None
    }
}

/// The generic table knows exactly two calls: 64 is `write`, 93 is `exit`,
/// and every other number is unknown.
pub proof fn lemma_generic_table_numbers(nr: u32)
    ensures
        (spec_table_generic(nr) == Some(SyscallHandler::Syscall3(Syscall3::Write))) == (nr == 64),
        (spec_table_generic(nr) == Some(SyscallHandler::Syscall1(Syscall1::Exit))) == (nr == 93),
        (spec_table_generic(nr) is None) == (nr != 64 && nr != 93),
{
}

/// The handler of call `nr` in the runtime's own early numbering, in which
/// `exit` is 1 and `write` is 4.
pub fn table_keystone(nr: u32) -> (r: Option<SyscallHandler>)
    ensures
        r == (if nr == 1 {
            Some(SyscallHandler::Syscall1(Syscall1::Exit))
        } else if nr == 4 {
            Some(SyscallHandler::Syscall3(Syscall3::Write))
        } else {
            None
        }),
{
    if nr == 1 {
        Some(SyscallHandler::Syscall1(Syscall1::Exit))
    } else if nr == 4 {
        Some(SyscallHandler::Syscall3(Syscall3::Write))
    } else {
        None
    }
}

/// The handler for the call number a user program put in its register, or
/// `None` when the number is unknown (or does not fit in 32 bits).
pub fn dispatch(nr: usize) -> (r: Option<SyscallHandler>)
    ensures
        r == (if nr <= u32::MAX {
            spec_table_generic(nr as u32)
        } else {
            None
        }),
        nr == 64 ==> r == Some(SyscallHandler::Syscall3(Syscall3::Write)),
        nr == 93 ==> r == Some(SyscallHandler::Syscall1(Syscall1::Exit)),
        nr != 64 && nr != 93 ==> r is None,
{
    if nr > u32::MAX as usize {
        None
    } else {
        table_generic(nr as u32)
    }
}

/// Asks the host to write `buf` to file descriptor `fd`.
pub fn edge_write_request(edge_mem: &mut EdgeMemory, fd: u64, buf: &[u8])
    requires
        buf@.len() <= EDGE_BUFFER_SIZE,
    ensures
        final(edge_mem).req == EdgeCallReq::EdgeCallSyscall.code(),
        final(edge_mem).syscall_req@.subrange(0, 24) == syscall_req_bytes(
            SyscallReq::Write { fd, len: buf@.len() as u64 },
        ),
        final(edge_mem).buffer_data() == buf@,
        final(edge_mem).len == buf@.len(),
        final(edge_mem).result == old(edge_mem).result,
{
    edge_mem.write_syscall_request(SyscallReq::Write { fd, len: buf.len() as u64 });
    edge_mem.write_buffer(buf);
}

/// Progress of a `write` of `total` bytes, forwarded to the host one
/// edge-call buffer at a time.
#[derive(Clone, Copy, PartialEq, Eq, Debug, Structural)]
pub struct ChunkedWrite {
    pub offset: usize,
    pub remaining: usize,
    pub written: isize,
    pub finished: Option<isize>,
}

impl ChunkedWrite {
    /// Nothing written yet of `total` bytes.
    pub fn start(total: usize) -> (c: ChunkedWrite)
        ensures
            c == (ChunkedWrite { offset: 0, remaining: total, written: 0, finished: None }),
    {
        ChunkedWrite { offset: 0, remaining: total, written: 0, finished: None }
    }

    pub open spec fn chunk_len(&self) -> usize {
        if self.remaining > EDGE_BUFFER_SIZE {
            EDGE_BUFFER_SIZE
        } else {
            self.remaining
        }
    }

    /// Which bytes of the user buffer to write next (offset, length); `None`
    /// once the call is over.
    pub fn next_chunk(&self) -> (r: Option<(usize, usize)>)
        ensures
            r == (if self.finished is Some {
                None
            } else {
                Some((self.offset, self.chunk_len()))
            }),
            r matches Some((o, l)) ==> {
                &&& o == self.offset
                &&& l <= self.remaining
                &&& self.remaining <= EDGE_BUFFER_SIZE ==> l == self.remaining
                &&& self.remaining > EDGE_BUFFER_SIZE ==> l == EDGE_BUFFER_SIZE
            },
    {
        if self.finished.is_some() {
            None
        } else if self.remaining > EDGE_BUFFER_SIZE {
            Some((self.offset, EDGE_BUFFER_SIZE))
        } else {
            Some((self.offset, self.remaining))
        }
    }

    /// The state after the host's write of the current chunk returned `r`.
    pub open spec fn after_chunk(self, r: isize) -> ChunkedWrite {
        if r < 0 {
            ChunkedWrite { finished: Some(r), ..self }
        } else if self.remaining > EDGE_BUFFER_SIZE {
            ChunkedWrite {
                offset: (self.offset + EDGE_BUFFER_SIZE) as usize,
                remaining: (self.remaining - EDGE_BUFFER_SIZE) as usize,
                written: (self.written + r) as isize,
                finished: None,
            }
        } else {
            ChunkedWrite {
                written: (self.written + r) as isize,
                finished: Some((self.written + r) as isize),
                ..self
            }
        }
    }

    /// Records what the host's write of the current chunk returned. A
    /// negative result ends the call with that result; otherwise it counts
    /// as written, and the last chunk ends the call with the total written.
    pub fn chunk_done(&mut self, r: isize)
        requires
            old(self).finished is None,
            r >= 0 ==> old(self).written + r <= isize::MAX,
            old(self).offset + old(self).remaining <= usize::MAX,
        ensures
            *final(self) == old(self).after_chunk(r),
            final(self).offset + final(self).remaining <= usize::MAX,
    {
        if r < 0 {
            self.finished = Some(r);
        } else if self.remaining > EDGE_BUFFER_SIZE {
            self.written = self.written + r;
            self.offset = self.offset + EDGE_BUFFER_SIZE;
            self.remaining = self.remaining - EDGE_BUFFER_SIZE;
        } else {
            self.written = self.written + r;
            self.finished = Some(self.written);
        }
    }
}

/// A chunk never goes past the end of the user's buffer, and is a whole
/// buffer exactly when more than a buffer is left.
pub proof fn lemma_write_chunk_len(c: ChunkedWrite)
    ensures
        c.chunk_len() <= c.remaining,
        c.remaining <= EDGE_BUFFER_SIZE ==> c.chunk_len() == c.remaining,
        c.remaining > EDGE_BUFFER_SIZE ==> c.chunk_len() == EDGE_BUFFER_SIZE,
{
}

/// A write goes on only after a full chunk that the host accepted: the next
/// chunk then starts one buffer further on, the bytes left shrink by as
/// much, and the count grows by what the host wrote; so while a write of
/// `total` bytes is in progress, chunk `k` starts at `k` buffers.
pub proof fn lemma_write_chunk_advances(c: ChunkedWrite, r: isize)
    requires
        c.finished is None,
        r >= 0 ==> c.written + r <= isize::MAX,
        c.offset + c.remaining <= usize::MAX,
    ensures
        (c.after_chunk(r).finished is None) == (r >= 0 && c.remaining > EDGE_BUFFER_SIZE),
        c.after_chunk(r).finished is None ==> {
            &&& c.after_chunk(r).offset == c.offset + EDGE_BUFFER_SIZE
            &&& c.after_chunk(r).remaining == c.remaining - EDGE_BUFFER_SIZE
            &&& c.after_chunk(r).offset + c.after_chunk(r).remaining == c.offset + c.remaining
            &&& c.after_chunk(r).written == c.written + r
        },
        r < 0 ==> c.after_chunk(r).finished == Some(r),
{
}

/// The state after the host answered successive chunks with `results`,
/// stopping where the call ends.
pub open spec fn run_write(c: ChunkedWrite, results: Seq<isize>) -> ChunkedWrite
    decreases results.len(),
{
    if c.finished is Some || results.len() == 0 {
        c
    } else {
        run_write(c.after_chunk(results[0]), results.drop_first())
    }
}

/// How many edge calls a `write` of `total` bytes makes at most: one per
/// full buffer while more than a buffer is left, then one for the rest.
pub open spec fn write_chunks(total: nat) -> nat
    decreases total,
{
    if total > EDGE_BUFFER_SIZE {
        1 + write_chunks((total - EDGE_BUFFER_SIZE) as nat)
    } else {
        1
    }
}

/// What a `write` of `total` bytes returns when the host answers its chunks
/// with `results`: the first negative result, or else the sum of the results.
pub open spec fn write_result(total: nat, results: Seq<isize>) -> int
    decreases total,
{
    if results.len() == 0 {
        0
    } else if results[0] < 0 {
        results[0] as int
    } else if total > EDGE_BUFFER_SIZE {
        let rest = write_result((total - EDGE_BUFFER_SIZE) as nat, results.drop_first());
        if rest < 0 {
            rest
        } else {
            results[0] + rest
        }
    } else {
        results[0] as int
    }
}

proof fn lemma_run_write_from(c: ChunkedWrite, results: Seq<isize>)
    requires
        c.finished is None,
        0 <= c.written,
        c.written + c.remaining + EDGE_BUFFER_SIZE <= isize::MAX,
        results.len() >= write_chunks(c.remaining as nat),
        forall|i: int| 0 <= i < results.len() ==> #[trigger] results[i] <= EDGE_BUFFER_SIZE,
    ensures
        run_write(c, results).finished == Some(
            (if write_result(c.remaining as nat, results) < 0 {
                write_result(c.remaining as nat, results)
            } else {
                c.written + write_result(c.remaining as nat, results)
            }) as isize,
        ),
        0 <= write_result(c.remaining as nat, results) ==> write_result(c.remaining as nat, results)
            <= c.remaining + EDGE_BUFFER_SIZE,
    decreases c.remaining,
{
    let r = results[0];
    let c1 = c.after_chunk(r);
    let rest = results.drop_first();
    assert(run_write(c, results) == run_write(c1, rest));
    if r < 0 {
    } else if c.remaining > EDGE_BUFFER_SIZE {
        assert forall|i: int| 0 <= i < rest.len() implies #[trigger] rest[i] <= EDGE_BUFFER_SIZE by {
            assert(rest[i] == results[i + 1]);
        }
        lemma_run_write_from(c1, rest);
    } else {
    }
}

/// A `write` driven to its end returns what the host's answers add up to:
/// the first error, or else the total of the counts, as long as each answer
/// counts at most one buffer.
pub proof fn lemma_chunked_write_result(total: usize, results: Seq<isize>)
    requires
        total + EDGE_BUFFER_SIZE <= isize::MAX,
        results.len() >= write_chunks(total as nat),
        forall|i: int| 0 <= i < results.len() ==> #[trigger] results[i] <= EDGE_BUFFER_SIZE,
    ensures
        run_write(ChunkedWrite { offset: 0, remaining: total, written: 0, finished: None }, results).finished
            == Some(write_result(total as nat, results) as isize),
{
    lemma_run_write_from(ChunkedWrite { offset: 0, remaining: total, written: 0, finished: None }, results);
}

} // verus!