//! The client's timing decisions: when to ask for a new mesh of the chunks around
//! the camera, when to send the player's transform, and how large a quad buffer
//! to keep.

use vstd::prelude::*;

verus! {

/// Least time between two mesh requests for the same stream cell, in milliseconds.
pub const MESH_REQUEST_INTERVAL_MILLIS: u64 = 250;

/// Whether the client asks for a new mesh: always when the camera entered another
/// stream cell; when only the store changed, once the last request is old enough
/// or while nothing is shown yet.
pub open spec fn mesh_request_due_spec(
    stream_cell_changed: bool,
    world_changed: bool,
    shown_chunks: usize,
    millis_since_request: u64,
) -> bool {
    stream_cell_changed || (world_changed && (shown_chunks == 0 || millis_since_request
        >= MESH_REQUEST_INTERVAL_MILLIS))
}

/// Decides whether the client asks for a new mesh of the chunks around the camera.
pub fn mesh_request_due(
    stream_cell_changed: bool,
    world_changed: bool,
    shown_chunks: usize,
    millis_since_request: u64,
) -> (due: bool)
    ensures
        due == mesh_request_due_spec(stream_cell_changed, world_changed, shown_chunks, millis_since_request),
{
    if !stream_cell_changed && !world_changed {
        return false;
    }
    if !stream_cell_changed && shown_chunks > 0 && millis_since_request < MESH_REQUEST_INTERVAL_MILLIS {
        return false;
    }
    true
}

/// Least time between two transform updates sent to the server, in milliseconds.
pub const TRANSFORM_SEND_INTERVAL_MILLIS: u64 = 50;

/// Whether the client sends the camera's transform: when nothing was sent yet, or
/// when the last send is old enough and the transform changed since.
pub open spec fn transform_send_due_spec(millis_since_send: Option<u64>, changed: bool) -> bool {
    match millis_since_send {
        None => true,
        Some(millis) => millis >= TRANSFORM_SEND_INTERVAL_MILLIS && changed,
    }
}

/// Decides whether the client sends the camera's transform this frame.
/// `millis_since_send` is the time since the last accepted send (`None` before the
/// first), `changed` whether the transform differs from the one sent then.
pub fn transform_send_due(millis_since_send: Option<u64>, changed: bool) -> (due: bool)
    ensures
        due == transform_send_due_spec(millis_since_send, changed),
{
    match millis_since_send {
        None => true,
        Some(millis) => millis >= TRANSFORM_SEND_INTERVAL_MILLIS && changed,
    }
}

/// `2^k`.
pub open spec fn power_of_two(k: nat) -> nat
    decreases k,
{
    if k == 0 {
        1
    } else {
        2 * power_of_two((k - 1) as nat)
    }
}

/// The capacity, in quads, of a buffer that must hold `len` quads: the current one
/// while it suffices, else the least power of two that holds them all.
pub fn quad_buffer_capacity(capacity: usize, len: usize) -> (grown: usize)
    requires
        len <= usize::MAX / 2 + 1,
    ensures
        len <= capacity ==> grown == capacity,
        len > capacity ==> grown >= len && exists|k: nat|
            grown == #[trigger] power_of_two(k) && (k == 0 || power_of_two((k - 1) as nat) < len),
{
    if len <= capacity {
        return capacity;
    }
    let mut grown: usize = 1;
    let ghost mut k: nat = 0;
    while grown < len
        invariant
            len <= usize::MAX / 2 + 1,
            grown == power_of_two(k),
            k == 0 || power_of_two((k - 1) as nat) < len,
            grown >= 1,
            grown <= 2 * len,
        decreases 2 * len - grown,
    {
        grown = grown * 2;
        proof {
            k = k + 1;
        }
    }
    grown
}

} // verus!
