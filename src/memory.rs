//! The machine's memory, as the operating system reports it.
use vstd::prelude::*;

verus! {

#[verifier::external_type_specification]
#[verifier::external_body]
pub struct ExSystem(sysinfo::System);

/// Relies on `sysinfo::System::new_all`: a snapshot of the machine with every
/// kind of information loaded.
pub assume_specification[ sysinfo::System::new_all ]() -> sysinfo::System;

/// Relies on `sysinfo::System::total_memory`: the RAM size in bytes of the
/// snapshot; nothing is promised of its value.
pub assume_specification[ sysinfo::System::total_memory ](s: &sysinfo::System) -> u64;

/// The machine's total memory in bytes, as read now.
pub fn total_memory() -> u64 {
    let system = sysinfo::System::new_all();
    system.total_memory()
}

} // verus!
