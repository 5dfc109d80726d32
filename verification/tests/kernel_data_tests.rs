use std::cell::Cell;

use rust_os::interrupts::{InterruptIndex, PIC_1_OFFSET, PIC_2_OFFSET};
use rust_os::vga_buffer::{Color, ColorCode};
use rust_os::{test_runner, QemuExitCode, Testable};

#[test]
fn qemu_exit_codes_avoid_the_emulators_own() {
    assert_eq!(QemuExitCode::Success.as_u32(), 0x10);
    assert_eq!(QemuExitCode::Failed.as_u32(), 0x11);
}

#[test]
fn interrupt_vectors_sit_past_the_exceptions() {
    assert_eq!(PIC_1_OFFSET, 32);
    assert_eq!(PIC_2_OFFSET, 40);
    assert_eq!(InterruptIndex::Timer.as_u8(), 32);
    assert_eq!(InterruptIndex::Keyboard.as_u8(), 33);
    assert_eq!(InterruptIndex::Timer.as_usize(), 32);
    assert_eq!(InterruptIndex::Keyboard.as_usize(), 33);
}

#[test]
fn color_codes_pack_background_high_foreground_low() {
    assert_eq!(Color::Black.as_u8(), 0);
    assert_eq!(Color::White.as_u8(), 15);
    assert_eq!(ColorCode::new(Color::Yellow, Color::Black).0, 14);
    assert_eq!(ColorCode::new(Color::White, Color::Blue).0, (1 << 4) | 15);
    assert_eq!(ColorCode::new(Color::Black, Color::White).0, 15 << 4);
}

struct CountingTest<'a> {
    runs: &'a Cell<u32>,
}

impl<'a> Testable for CountingTest<'a> {
    fn run(&self) {
        self.runs.set(self.runs.get() + 1);
    }
}

#[test]
fn test_runner_runs_every_test_once() {
    let runs = Cell::new(0);
    let tests = [
        CountingTest { runs: &runs },
        CountingTest { runs: &runs },
        CountingTest { runs: &runs },
    ];
    test_runner(&tests);
    assert_eq!(runs.get(), 3);
    test_runner::<CountingTest>(&[]);
    assert_eq!(runs.get(), 3);
}
