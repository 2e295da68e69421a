//! What running a child process produced, as recorded evidence.
use vstd::prelude::*;

verus! {

/// A finished child process: what ran, how it ended, how long it took,
/// and what it printed with the digest of each stream.
#[derive(Clone, Debug)]
pub struct ProcessEvidence {
    pub executable: String,
    pub arguments: Vec<String>,
    pub exit_code: Option<i32>,
    pub success: bool,
    pub elapsed_ms: u128,
    pub stdout_sha256: String,
    pub stderr_sha256: String,
    pub stdout: String,
    pub stderr: String,
}

/// Evidence of a run from what it produced: each stream is recorded with
/// its SHA-256 digest in lowercase hex, its text as given.
pub fn evidence(
    executable: String,
    arguments: Vec<String>,
    exit_code: Option<i32>,
    success: bool,
    elapsed_ms: u128,
    stdout: &[u8],
    stderr: &[u8],
    stdout_text: String,
    stderr_text: String,
) -> (r: ProcessEvidence)
    ensures
        r.executable == executable,
        r.arguments == arguments,
        r.exit_code == exit_code,
        r.success == success,
        r.elapsed_ms == elapsed_ms,
        r.stdout_sha256@ == crate::digest::hex_of(crate::digest::sha256(stdout@)),
        r.stderr_sha256@ == crate::digest::hex_of(crate::digest::sha256(stderr@)),
        r.stdout == stdout_text,
        r.stderr == stderr_text,
{
    ProcessEvidence {
        executable,
        arguments,
        exit_code,
        success,
        elapsed_ms,
        stdout_sha256: crate::digest::bytes(stdout),
        stderr_sha256: crate::digest::bytes(stderr),
        stdout: stdout_text,
        stderr: stderr_text,
    }
}

} // verus!
