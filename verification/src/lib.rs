//! A kernel heap-allocation library: a bump allocator and a fixed-size-block
//! allocator with a first-fit fallback, managing a fixed, pre-mapped virtual
//! address range. Every allocation decision is pure address arithmetic over
//! `usize` addresses, so it is stated and proved here; the thin unsafe shell
//! that turns the chosen addresses into raw pointers, the lock around the
//! shared allocator, and the kernel's other hardware-facing pieces live
//! outside the library.
use vstd::prelude::*;

pub mod allocator;
pub mod interrupts;
pub mod vga_buffer;

verus! {

/// One runnable kernel test. The test harness implements it for plain test
/// functions, wrapping each in its reporting.
pub trait Testable {
    /// Runs the test once.
    fn run(&self);
}

/// Runs every given test once, in order. Announcing the test count and
/// exiting the emulator afterwards is the harness's business, as is any I/O
/// inside the tests.
pub fn test_runner<T: Testable>(tests: &[T]) {
    let mut i: usize = 0;
    while i < tests.len()
        decreases tests.len() - i,
    {
        tests[i].run();
        i = i + 1;
    }
}

/// Exit status a test kernel reports to the emulator through its exit device;
/// the values stay clear of the emulator's own exit codes.
#[derive(Debug, Clone, Copy, PartialEq, Eq, Structural)]
pub enum QemuExitCode {
    Success,
    Failed,
}

impl QemuExitCode {
    /// The 32-bit value written to the emulator's exit device.
    pub fn as_u32(self) -> (r: u32)
        ensures
            self is Success ==> r == 0x10,
            self is Failed ==> r == 0x11,
    {
        match self {
            QemuExitCode::Success => 0x10,
            QemuExitCode::Failed => 0x11,
        }
    }
}

} // verus!
