//! Evidence of a generation run: the Recreate process, what it printed,
//! and the digest of the binary that ran.
use vstd::prelude::*;

verus! {

/// A finished Recreate process.
#[derive(Clone, Debug)]
pub struct ProcessEvidence {
    pub executable: String,
    pub arguments: Vec<String>,
    pub exit_code: i32,
    pub elapsed_ms: u128,
    pub stdout: String,
    pub stderr: String,
    pub executable_hash: String,
}

/// An exit code, or `-1` for a process ended by a signal.
pub open spec fn exit_or_signal(code: Option<i32>) -> i32 {
    match code {
        Some(c) => c,
        None => -1i32,
    }
}

/// Evidence of a run: a process killed by a signal has no exit code and is
/// recorded with `-1`; the binary is recorded by its SHA-256 in lowercase
/// hex.
pub fn evidence(
    executable: String,
    arguments: Vec<String>,
    exit_code: Option<i32>,
    elapsed_ms: u128,
    stdout: String,
    stderr: String,
    binary: &[u8],
) -> (r: ProcessEvidence)
    ensures
        r.executable == executable,
        r.arguments == arguments,
        r.exit_code == exit_or_signal(exit_code),
        r.elapsed_ms == elapsed_ms,
        r.stdout == stdout,
        r.stderr == stderr,
        r.executable_hash@ == crate::digest::hex_of(crate::digest::sha256(binary@)),
{
    ProcessEvidence {
        executable,
        arguments,
        exit_code: match exit_code {
            Some(c) => c,
            None => -1,
        },
        elapsed_ms,
        stdout,
        stderr,
        executable_hash: crate::digest::bytes(binary),
    }
}

} // verus!
