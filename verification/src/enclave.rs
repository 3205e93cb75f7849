//! Requests to the Keystone driver that creates and runs enclaves, and the
//! enclave status it reports back.
use vstd::prelude::*;

verus! {

/// Entry points and untrusted memory of an enclave's runtime.
#[derive(Clone, Copy, PartialEq, Eq, Debug, Structural)]
pub struct RuntimeParams {
    pub runtime_entry: usize,
    pub user_entry: usize,
    pub untrusted_ptr: usize,
    pub untrusted_size: usize,
}

/// The driver's enclave-creation request, also used to set up untrusted
/// memory, to finalize and to destroy an enclave.
#[derive(Clone, Copy, PartialEq, Eq, Debug, Structural)]
pub struct CreateEnclave {
    pub eid: usize,
    pub min_pages: usize,
    pub runtime_vaddr: usize,
    pub user_vaddr: usize,
    pub pt_ptr: usize,
    pub utm_free_ptr: usize,
    pub epm_paddr: usize,
    pub utm_paddr: usize,
    pub runtime_paddr: usize,
    pub user_paddr: usize,
    pub free_paddr: usize,
    pub epm_size: usize,
    pub utm_size: usize,
    pub params: RuntimeParams,
}

/// The driver's request to run or resume an enclave, and its answer.
#[derive(Clone, Copy, PartialEq, Eq, Debug, Structural)]
pub struct RunEnclave {
    pub eid: usize,
    pub error: usize,
    pub value: usize,
}

pub open spec fn zero_params() -> RuntimeParams {
    RuntimeParams { runtime_entry: 0, user_entry: 0, untrusted_ptr: 0, untrusted_size: 0 }
}

pub open spec fn zero_create() -> CreateEnclave {
    CreateEnclave {
        eid: 0,
        min_pages: 0,
        runtime_vaddr: 0,
        user_vaddr: 0,
        pt_ptr: 0,
        utm_free_ptr: 0,
        epm_paddr: 0,
        utm_paddr: 0,
        runtime_paddr: 0,
        user_paddr: 0,
        free_paddr: 0,
        epm_size: 0,
        utm_size: 0,
        params: zero_params(),
    }
}

impl Default for RuntimeParams {
    fn default() -> (r: RuntimeParams)
        ensures
            r == zero_params(),
    {
        RuntimeParams { runtime_entry: 0, user_entry: 0, untrusted_ptr: 0, untrusted_size: 0 }
    }
}

impl Default for CreateEnclave {
    fn default() -> (r: CreateEnclave)
        ensures
            r == zero_create(),
    {
        CreateEnclave {
            eid: 0,
            min_pages: 0,
            runtime_vaddr: 0,
            user_vaddr: 0,
            pt_ptr: 0,
            utm_free_ptr: 0,
            epm_paddr: 0,
            utm_paddr: 0,
            runtime_paddr: 0,
            user_paddr: 0,
            free_paddr: 0,
            epm_size: 0,
            utm_size: 0,
            params: RuntimeParams::default(),
        }
    }
}

impl Default for RunEnclave {
    fn default() -> (r: RunEnclave)
        ensures
            r == (RunEnclave { eid: 0, error: 0, value: 0 }),
    {
        RunEnclave { eid: 0, error: 0, value: 0 }
    }
}

/// The driver's answer code for an enclave that has exited.
pub const KEYSTONE_ENCLAVE_DONE: usize = 0;

/// The driver's answer code for an enclave stopped by an interrupt.
pub const KEYSTONE_ENCLAVE_INTERRUPTED: usize = 100002;

/// The driver's answer code for an enclave waiting for an edge call.
pub const KEYSTONE_ENCLAVE_EDGE_CALL_HOST: usize = 100011;

/// Why a run of the enclave stopped.
#[derive(Clone, Copy, PartialEq, Eq, Debug, Structural)]
pub enum EnclaveStatus {
    EdgeCallHost,
    Interrupted,
    Done(usize),
    UnknownError(usize),
}

/// The status that the driver's answer to a run or resume stands for.
pub fn map_enclave_status(ioctl_req: &RunEnclave) -> (s: EnclaveStatus)
    ensures
        s == (if ioctl_req.error == KEYSTONE_ENCLAVE_DONE {
            EnclaveStatus::Done(ioctl_req.value)
        } else if ioctl_req.error == KEYSTONE_ENCLAVE_EDGE_CALL_HOST {
            EnclaveStatus::EdgeCallHost
        } else if ioctl_req.error == KEYSTONE_ENCLAVE_INTERRUPTED {
            EnclaveStatus::Interrupted
        } else {
            EnclaveStatus::UnknownError(ioctl_req.error)
        }),
{
    if ioctl_req.error == KEYSTONE_ENCLAVE_DONE {
        EnclaveStatus::Done(ioctl_req.value)
    } else if ioctl_req.error == KEYSTONE_ENCLAVE_EDGE_CALL_HOST {
        EnclaveStatus::EdgeCallHost
    } else if ioctl_req.error == KEYSTONE_ENCLAVE_INTERRUPTED {
        EnclaveStatus::Interrupted
    } else {
        EnclaveStatus::UnknownError(ioctl_req.error)
    }
}

/// The request that creates an enclave of at least `min_pages` pages.
pub fn create_request(min_pages: usize) -> (r: CreateEnclave)
    ensures
        r == (CreateEnclave { min_pages, ..zero_create() }),
{
    CreateEnclave { min_pages, ..Default::default() }
}

/// The request that sets up `size` bytes of untrusted memory for enclave `eid`.
pub fn utm_request(eid: usize, size: usize) -> (r: CreateEnclave)
    ensures
        r == (CreateEnclave {
            eid,
            params: RuntimeParams { untrusted_size: size, ..zero_params() },
            ..zero_create()
        }),
{
    CreateEnclave {
        eid,
        params: RuntimeParams { untrusted_size: size, ..Default::default() },
        ..Default::default()
    }
}

/// The request that finalizes enclave `eid` with its runtime, user program
/// and free memory at the given physical addresses.
pub fn finalize_request(
    eid: usize,
    rt_phys_addr: usize,
    eapp_phys_addr: usize,
    free_phys_addr: usize,
    params: RuntimeParams,
) -> (r: CreateEnclave)
    ensures
        r == (CreateEnclave {
            eid,
            runtime_paddr: rt_phys_addr,
            user_paddr: eapp_phys_addr,
            free_paddr: free_phys_addr,
            params,
            ..zero_create()
        }),
{
    CreateEnclave {
        eid,
        runtime_paddr: rt_phys_addr,
        user_paddr: eapp_phys_addr,
        free_paddr: free_phys_addr,
        params,
        ..Default::default()
    }
}

/// The request that names enclave `eid` only (to destroy it).
pub fn eid_request(eid: usize) -> (r: CreateEnclave)
    ensures
        r == (CreateEnclave { eid, ..zero_create() }),
{
    CreateEnclave { eid, ..Default::default() }
}

/// The request that runs or resumes enclave `eid`.
pub fn run_request(eid: usize) -> (r: RunEnclave)
    ensures
        r == (RunEnclave { eid, error: 0, value: 0 }),
{
    RunEnclave { eid, ..Default::default() }
}

/// Whether the driver's return code means success.
pub fn ioctl_succeeded(err: i32) -> (ok: bool)
    ensures
        ok == (err == 0),
{
    err == 0
}

} // verus!
