//! Which failures of a DevTools command are a dropped or stalled transport,
//! worth retrying on a fresh socket, and which mean the browser is gone.
use crate::text::{contains_seq, contains_str};
use vstd::prelude::*;

verus! {

/// The I/O error kinds a transport failure can carry.
#[derive(Clone, Copy, Debug, PartialEq, Eq, Structural)]
pub enum IoKind {
    ConnectionReset,
    ConnectionAborted,
    BrokenPipe,
    UnexpectedEof,
    NotConnected,
    ConnectionRefused,
    Other,
}

/// A failed command as plain values: its message with every cause, and
/// the kind of each I/O error in its chain of causes, outermost first.
#[derive(Clone, Debug)]
pub struct Failure {
    pub message: String,
    pub kinds: Vec<IoKind>,
}

/// A connection that dropped under a command.
pub open spec fn dropped(kind: IoKind) -> bool {
    kind == IoKind::ConnectionReset || kind == IoKind::ConnectionAborted || kind == IoKind::BrokenPipe
        || kind == IoKind::UnexpectedEof || kind == IoKind::NotConnected
}

fn dropped_connection(kind: IoKind) -> (r: bool)
    ensures
        r == dropped(kind),
{
    match kind {
        IoKind::ConnectionReset | IoKind::ConnectionAborted | IoKind::BrokenPipe | IoKind::UnexpectedEof
        | IoKind::NotConnected => true,
        _ => false,
    }
}

/// Whether a failure is a dropped or stalled transport rather than a real
/// protocol error.
pub open spec fn retry_worthy(f: Failure) -> bool {
    (exists|i: int| 0 <= i < f.kinds@.len() && dropped(#[trigger] f.kinds@[i])) || contains_seq(
        f.message@,
        "timed out"@,
    ) || contains_seq(f.message@, "disconnected"@)
}

/// Whether a failure means the connection to the browser is gone.
pub open spec fn lost(f: Failure) -> bool {
    exists|i: int|
        0 <= i < f.kinds@.len() && (dropped(#[trigger] f.kinds@[i]) || f.kinds@[i] == IoKind::ConnectionRefused)
}

/// True when a failed command is worth retrying on a fresh socket.
pub fn reconnectable(error: &Failure) -> (r: bool)
    ensures
        r == retry_worthy(*error),
{
    let mut i: usize = 0;
    while i < error.kinds.len()
        invariant
            i <= error.kinds@.len(),
            forall|j: int| 0 <= j < i ==> !dropped(#[trigger] error.kinds@[j]),
        decreases error.kinds@.len() - i,
    {
        if dropped_connection(error.kinds[i]) {
            return true;
        }
        i += 1;
    }
    contains_str(error.message.as_str(), "timed out") || contains_str(error.message.as_str(), "disconnected")
}

/// True when the browser connection itself is gone, a refused reconnect
/// included: no further evidence can be collected.
pub fn transport_lost(error: &Failure) -> (r: bool)
    ensures
        r == lost(*error),
{
    let mut i: usize = 0;
    while i < error.kinds.len()
        invariant
            i <= error.kinds@.len(),
            forall|j: int|
                0 <= j < i ==> !(dropped(#[trigger] error.kinds@[j]) || error.kinds@[j] == IoKind::ConnectionRefused),
        decreases error.kinds@.len() - i,
    {
        let kind = error.kinds[i];
        if dropped_connection(kind) || kind == IoKind::ConnectionRefused {
            return true;
        }
        i += 1;
    }
    false
}

} // verus!
