//! The host's side of edge calls: deciding what an edge call asks for, and
//! writing the reply once the host has done it.
use vstd::prelude::*;
use crate::edge::{EdgeMemory, EdgeCallReq, SyscallReq, parse_syscall_req};

verus! {

/// What the host is asked to do by an edge call.
#[derive(Clone, Copy, PartialEq, Eq, Debug, Structural)]
pub enum HostAction {
    /// Print the data of the buffer.
    Print,
    /// Write the first `len` bytes of the buffer to file descriptor `fd`.
    SyscallWrite { fd: i32, len: u64 },
    /// A system call whose encoding is not known.
    UnknownSyscall,
    /// Anything else: ignored with a warning.
    Invalid,
}

/// What the edge call in `edge_mem` asks the host to do.
pub fn host_action(edge_mem: &EdgeMemory) -> (a: HostAction)
    ensures
        a == (match EdgeCallReq::from_code(edge_mem.req) {
            Some(EdgeCallReq::EdgeCallPrint) => HostAction::Print,
            Some(EdgeCallReq::EdgeCallSyscall) => match parse_syscall_req(edge_mem.syscall_req@) {
                Some(SyscallReq::Write { fd, len }) => HostAction::SyscallWrite { fd: fd as i32, len },
                None => HostAction::UnknownSyscall,
            },
            _ => HostAction::Invalid,
        }),
{
    match EdgeCallReq::try_from_u32(edge_mem.req).unwrap_or(EdgeCallReq::EdgeCallInvalid) {
        EdgeCallReq::EdgeCallPrint => HostAction::Print,
        EdgeCallReq::EdgeCallSyscall => match edge_mem.read_syscall_request() {
            Some(SyscallReq::Write { fd, len }) => HostAction::SyscallWrite { fd: fd as i32, len },
            None => HostAction::UnknownSyscall,
        },
        _ => HostAction::Invalid,
    }
}

/// The reply to a print: `req` set to 42.
pub fn complete_print(edge_mem: &mut EdgeMemory)
    ensures
        final(edge_mem).req == 42,
        final(edge_mem).len == old(edge_mem).len,
        final(edge_mem).result == old(edge_mem).result,
        final(edge_mem).buffer == old(edge_mem).buffer,
        final(edge_mem).syscall_req == old(edge_mem).syscall_req,
{
    edge_mem.req = 42;
}

/// The result code of a system call the host performed: the count on
/// success, the error number on failure.
pub fn syscall_result_code(outcome: Result<usize, i32>) -> (code: i64)
    requires
        outcome matches Ok(n) ==> n <= i64::MAX,
    ensures
        code == match outcome {
            Ok(n) => n as i64,
            Err(errno) => errno as i64,
        },
{
    match outcome {
        Ok(n) => n as i64,
        Err(errno) => errno as i64,
    }
}

/// The reply to a system call: its result code in `result`.
pub fn complete_syscall(edge_mem: &mut EdgeMemory, outcome: Result<usize, i32>)
    requires
        outcome matches Ok(n) ==> n <= i64::MAX,
    ensures
        final(edge_mem).result == match outcome {
            Ok(n) => n as i64,
            Err(errno) => errno as i64,
        },
        final(edge_mem).req == old(edge_mem).req,
        final(edge_mem).len == old(edge_mem).len,
        final(edge_mem).buffer == old(edge_mem).buffer,
        final(edge_mem).syscall_req == old(edge_mem).syscall_req,
{
    edge_mem.result = syscall_result_code(outcome);
}

} // verus!
