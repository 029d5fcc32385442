//! Keeps the runtime's entry points in the final binary.
//!
//! Guest code reaches the runtime's internal entry points and the host-call table by symbol
//! name only. A linker that sees only the host's own call graph drops them unless
//! something in that graph names them; this module is that something.

use vstd::prelude::*;

verus! {

/// Calls `lucet_runtime::lucet_internal_ensure_linked`, which names the runtime's
/// `lucet_vmctx_*` entry points so that they are linked in. It returns nothing and nothing
/// is claimed of it.
#[verifier::external_body]
fn retain_runtime_symbols() {
    lucet_runtime::lucet_internal_ensure_linked();
}

/// Calls `lucet_wasi::export_wasi_funcs`, which names every `__wasi_*` host call so that
/// the table of host calls is linked in. It returns nothing and nothing is claimed of it.
#[verifier::external_body]
fn retain_wasi_hostcalls() {
    lucet_wasi::export_wasi_funcs();
}

/// The initialization step of the process: names the runtime's internal entry points and
/// its host-call table, so that both are in the binary before any workload runs.
pub fn ensure_linked() {
    retain_runtime_symbols();
    retain_wasi_hostcalls();
}

} // verus!
