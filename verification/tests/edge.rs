use new_tee_os::edge::{
    edge_get_size, edge_open_reply, file_handle, edge_read_reply, on_error, print_chunks, ChunkedRead, EdgeCallReq,
    EdgeMemory, EdgeReader, SyscallReq, EDGE_BUFFER_SIZE,
};
use new_tee_os::host::{complete_print, complete_syscall, host_action, syscall_result_code, HostAction};
use new_tee_os::syscall::{
    dispatch, edge_write_request, table_generic, table_keystone, ChunkedWrite, Syscall1, Syscall3,
    SyscallHandler,
};

#[test]
fn buffer_round_trip() {
    let mut m = EdgeMemory::new();
    m.write_buffer(b"hello");
    assert_eq!(m.len, 5);
    assert_eq!(m.read_buffer(), b"hello");
    m.write_buffer(b"");
    assert_eq!(m.read_buffer(), b"");
    assert_eq!(m.buffer[0], b'h');
}

#[test]
fn full_buffer() {
    let mut m = EdgeMemory::new();
    let data = vec![7u8; EDGE_BUFFER_SIZE];
    m.write_buffer(&data);
    assert_eq!(m.read_buffer(), &data[..]);
}

#[test]
fn syscall_request_round_trip() {
    let mut m = EdgeMemory::new();
    m.result = 5;
    let req = SyscallReq::Write { fd: 1, len: 14 };
    m.write_syscall_request(req);
    assert_eq!(m.req, 2);
    assert_eq!(m.read_syscall_request(), Some(req));
    assert_eq!(m.read_syscall_result(), 5);
    assert_eq!(&m.syscall_req[0..8], &[0, 0, 0, 0, 0, 0, 0, 64]);
    assert_eq!(&m.syscall_req[8..16], &[0, 0, 0, 0, 0, 0, 0, 1]);
    assert_eq!(EdgeMemory::new().read_syscall_request(), None);
}

#[test]
fn edge_call_req_codes() {
    assert_eq!(u32::from(EdgeCallReq::EdgeCallInvalid), 0);
    assert_eq!(u32::from(EdgeCallReq::EdgeCallPrint), 1);
    assert_eq!(u32::from(EdgeCallReq::EdgeCallSyscall), 2);
    assert_eq!(EdgeCallReq::EdgeCallClose.to_u32(), 6);
    for v in 0..7u32 {
        assert_eq!(EdgeCallReq::try_from_u32(v).map(|r| r.to_u32()), Some(v));
    }
    assert_eq!(EdgeCallReq::try_from_u32(7), None);
}

#[test]
fn reader_open_and_size() {
    let mut m = EdgeMemory::new();
    EdgeReader::open_request(&mut m, b"keystone-init");
    assert_eq!(m.req, 3);
    assert_eq!(m.read_buffer(), b"keystone-init");
    // host side
    edge_open_reply(&mut m, 0xDEAD_BEEF_0000_0001);
    assert_eq!(m.req, 0);
    let f = EdgeReader::open_reply(&m).unwrap();
    f.size_request(&mut m);
    assert_eq!(m.req, 5);
    assert_eq!(&m.buffer[0..8], &0xDEAD_BEEF_0000_0001u64.to_be_bytes());
    edge_get_size(&mut m, 12345);
    assert_eq!(EdgeReader::size_reply(&m), Some(12345));
    on_error(&mut m);
    assert_eq!(EdgeReader::size_reply(&m), None);
    assert_eq!(EdgeReader::open_reply(&m), None);
    f.close_request(&mut m);
    assert_eq!(m.req, 6);
}

#[test]
fn reader_read() {
    let mut m = EdgeMemory::new();
    edge_open_reply(&mut m, 9);
    let f = EdgeReader::open_reply(&m).unwrap();
    f.read_request(&mut m, 4);
    assert_eq!(m.req, 4);
    assert_eq!(m.len, 4);
    // the host reads 4 bytes of the file into the buffer
    m.buffer[0..4].copy_from_slice(b"abcd");
    edge_read_reply(&mut m, 4);
    let mut dest = vec![0u8; 4];
    assert_eq!(EdgeReader::read_reply(&m, &mut dest), Some(4));
    assert_eq!(dest, b"abcd");
    let mut short = vec![0u8; 3];
    assert_eq!(EdgeReader::read_reply(&m, &mut short), None);
    assert_eq!(short, vec![0u8; 3]);
}

#[test]
fn chunked_read_steps() {
    let mut c = ChunkedRead::start(EDGE_BUFFER_SIZE + 10);
    assert_eq!(c.next_chunk(), Some((0, EDGE_BUFFER_SIZE)));
    c.chunk_done(EDGE_BUFFER_SIZE);
    assert_eq!(c.next_chunk(), Some((EDGE_BUFFER_SIZE, 10)));
    c.chunk_done(10);
    assert_eq!(c.finished, Some(EDGE_BUFFER_SIZE + 10));
    assert_eq!(c.next_chunk(), None);

    let mut c = ChunkedRead::start(2 * EDGE_BUFFER_SIZE);
    c.chunk_done(100);
    assert_eq!(c.finished, Some(100));

    let mut c = ChunkedRead::start(0);
    assert_eq!(c.next_chunk(), Some((0, 0)));
    c.chunk_done(0);
    assert_eq!(c.finished, Some(0));
}

#[test]
fn print_chunk_bounds() {
    assert_eq!(print_chunks(0), vec![]);
    assert_eq!(print_chunks(5), vec![(0, 5)]);
    assert_eq!(print_chunks(EDGE_BUFFER_SIZE), vec![(0, EDGE_BUFFER_SIZE)]);
    assert_eq!(
        print_chunks(EDGE_BUFFER_SIZE + 1),
        vec![(0, EDGE_BUFFER_SIZE), (EDGE_BUFFER_SIZE, EDGE_BUFFER_SIZE + 1)]
    );
}

#[test]
fn host_decodes_edge_calls() {
    let mut m = EdgeMemory::new();
    assert_eq!(host_action(&m), HostAction::Invalid);
    m.req = 1;
    assert_eq!(host_action(&m), HostAction::Print);
    complete_print(&mut m);
    assert_eq!(m.req, 42);
    edge_write_request(&mut m, 1, b"Hello, world!\n");
    assert_eq!(host_action(&m), HostAction::SyscallWrite { fd: 1, len: 14 });
    assert_eq!(m.read_buffer(), b"Hello, world!\n");
    complete_syscall(&mut m, Ok(14));
    assert_eq!(m.read_syscall_result(), 14);
    complete_syscall(&mut m, Err(9));
    assert_eq!(m.result, 9);
    assert_eq!(syscall_result_code(Err(-1)), -1);
    m.syscall_req[7] = 0;
    assert_eq!(host_action(&m), HostAction::UnknownSyscall);
    m.req = 100;
    assert_eq!(host_action(&m), HostAction::Invalid);
}

#[test]
fn syscall_tables() {
    assert_eq!(table_generic(64), Some(SyscallHandler::Syscall3(Syscall3::Write)));
    assert_eq!(table_generic(93), Some(SyscallHandler::Syscall1(Syscall1::Exit)));
    assert_eq!(table_generic(1), None);
    assert_eq!(table_keystone(1), Some(SyscallHandler::Syscall1(Syscall1::Exit)));
    assert_eq!(table_keystone(4), Some(SyscallHandler::Syscall3(Syscall3::Write)));
    assert_eq!(table_keystone(64), None);
    assert_eq!(dispatch(64), Some(SyscallHandler::Syscall3(Syscall3::Write)));
    assert_eq!(dispatch(64 + (1usize << 32)), None);
}

#[test]
fn chunked_write_steps() {
    let mut w = ChunkedWrite::start(2 * EDGE_BUFFER_SIZE + 1);
    assert_eq!(w.next_chunk(), Some((0, EDGE_BUFFER_SIZE)));
    w.chunk_done(EDGE_BUFFER_SIZE as isize);
    assert_eq!(w.next_chunk(), Some((EDGE_BUFFER_SIZE, EDGE_BUFFER_SIZE)));
    w.chunk_done(EDGE_BUFFER_SIZE as isize);
    assert_eq!(w.next_chunk(), Some((2 * EDGE_BUFFER_SIZE, 1)));
    w.chunk_done(1);
    assert_eq!(w.finished, Some(2 * EDGE_BUFFER_SIZE as isize + 1));
    assert_eq!(w.next_chunk(), None);

    let mut w = ChunkedWrite::start(2 * EDGE_BUFFER_SIZE);
    w.chunk_done(-9);
    assert_eq!(w.finished, Some(-9));
}

#[test]
fn file_handle_of_a_request() {
    let mut m = EdgeMemory::new();
    edge_open_reply(&mut m, 0x0102_0304_0506_0708);
    assert_eq!(file_handle(&m), 0x0102_0304_0506_0708);
    assert_eq!(&m.buffer[0..8], &[1, 2, 3, 4, 5, 6, 7, 8]);
}
