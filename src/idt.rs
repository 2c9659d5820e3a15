//! Installing the interrupt descriptor table.
use vstd::prelude::*;
use x86_64::structures::idt::InterruptDescriptorTable;

verus! {

#[verifier::external_type_specification]
#[verifier::external_body]
pub struct ExInterruptDescriptorTable(InterruptDescriptorTable);

/// Relies on `InterruptDescriptorTable::load`: executes `lidt` with the
/// table's address and limit, so that the CPU dispatches through `idt`.
#[verifier::external_body]
fn load_table(idt: &'static InterruptDescriptorTable) {
    idt.load()
}

/// Makes the CPU dispatch exceptions and interrupts through `idt`, which
/// lives for the rest of the kernel's life.
pub fn load(idt: &'static InterruptDescriptorTable) {
    load_table(idt)
}

} // verus!
