//! Host-side rules of the memory exchange with a guest module: the guest
//! asks how many bytes the host hands in, copies them into its memory,
//! runs, and hands a span of its memory back.
use vstd::prelude::*;

verus! {

/// Why running a guest failed.
pub enum BridgeError {
    /// The input does not fit the 32-bit size the guest can ask for.
    InputTooLarge,
    /// The guest's entry point returned a nonzero status: it could not
    /// decode what the host passed in.
    GuestDecodeFailed(u32),
}

/// The size the guest is told to allocate for the host's input.
pub fn input_size(host: &Vec<u8>) -> (r: Result<u32, BridgeError>)
    ensures
        host@.len() <= u32::MAX ==> r == Ok::<u32, BridgeError>(host@.len() as u32),
        host@.len() > u32::MAX ==> r is Err && r->Err_0 is InputTooLarge,
{
    if host.len() as u64 > u32::MAX as u64 {
        Err(BridgeError::InputTooLarge)
    } else {
        Ok(host.len() as u32)
    }
}

/// The span `ptr .. ptr + len` of a guest memory of `mem_len` bytes, when
/// it lies inside it.
pub fn guest_span(mem_len: usize, ptr: u32, len: u32) -> (r: Option<(usize, usize)>)
    ensures
        ptr as int + len as int <= mem_len ==> r == Some((ptr as usize, (ptr + len) as usize)),
        ptr as int + len as int > mem_len ==> r is None,
{
    let start = ptr as u64;
    let end = start + len as u64;
    if end > mem_len as u64 {
        None
    } else {
        Some((ptr as usize, end as usize))
    }
}

/// Where the host's input goes in guest memory: only a request for exactly
/// the whole input, into a span inside the memory, is served.
pub fn input_target(host_len: usize, mem_len: usize, ptr: u32, len: u32) -> (r: Option<(usize, usize)>)
    ensures
        (host_len == len as int && ptr as int + len as int <= mem_len) ==> r == Some(
            (ptr as usize, (ptr + len) as usize),
        ),
        !(host_len == len as int && ptr as int + len as int <= mem_len) ==> r is None,
{
    if host_len as u64 != len as u64 {
        return None;
    }
    guest_span(mem_len, ptr, len)
}

/// The outcome of a guest run: the bytes it handed back on status zero,
/// the status otherwise.
pub fn entry_result(status: u32, output: Vec<u8>) -> (r: Result<Vec<u8>, BridgeError>)
    ensures
        status == 0 ==> (r matches Ok(o) && o@ == output@),
        status != 0 ==> (r matches Err(BridgeError::GuestDecodeFailed(s)) && s == status),
{
    if status != 0 {
        Err(BridgeError::GuestDecodeFailed(status))
    } else {
        Ok(output)
    }
}

} // verus!
