//! Where diagnostics go.
use std::io::Write;
use vstd::prelude::*;

verus! {

/// A sink for diagnostic lines.
pub trait ErrWriter {
    fn write(&mut self, s: &str);
}

/// Writes diagnostics to the standard error stream.
pub struct StderrWriter;

/// Relies on `std::io::stderr`: writes `s` and a line break; a failed write is ignored.
#[verifier::external_body]
fn write_stderr_line(s: &str) {
    let _ = writeln!(std::io::stderr(), "{}", s);
}

impl ErrWriter for StderrWriter {
    fn write(&mut self, s: &str) {
        write_stderr_line(s);
    }
}

} // verus!
