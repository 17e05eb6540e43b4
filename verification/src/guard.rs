//! Singleton guard.
//!
//! Before binding its socket, the daemon looks through the process table
//! for other instances of its own executable and exits quietly when it
//! finds one, instead of failing on the bound address or shadowing the
//! instance that already serves clients.  The check is best effort: two
//! instances started at nearly the same moment can both pass it before
//! either binds the socket.

use vstd::prelude::*;

verus! {

/// Relies on `sysinfo::System::processes_by_exact_name`: builds a fresh
/// view of the process table and counts the processes whose name equals
/// `name` exactly.  The count depends on what runs on the machine at that
/// moment, so nothing is promised of it.
#[verifier::external_body]
fn count_processes_named(name: &str) -> usize {
    let system = sysinfo::System::new_with_specifics(
        sysinfo::RefreshKind::new().with_processes(sysinfo::ProcessRefreshKind::new()),
    );
    system.processes_by_exact_name(name).count()
}

/// Whether a process count reveals a second instance: the count includes
/// the caller itself, so anything above one is somebody else.
pub fn multiple_instances(count: usize) -> (r: bool)
    ensures
        r == (count > 1),
{
    count > 1
}

/// Scans the process table for the daemon's executable name and says
/// whether an instance besides this one is running.  The answer depends
/// on the machine's state at the moment of the scan.
pub fn is_another_server_running() -> bool {
    let count = count_processes_named("fm-server");
    multiple_instances(count)
}

} // verus!
