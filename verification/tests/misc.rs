//! Tests of the remaining kernel-side pieces: architecture selection, the
//! memory-map entry decoding, the pixel computation, the log storage, and
//! the console interface.

use rezos::arch::{get_arch, ArchType};
use rezos::console::Console;
use rezos::limine::{draw_pixel, DrawPixelError, Framebuffer, MemmapEntryType};
use rezos::log::{print, StaticLog};

#[test]
fn architecture_is_amd64() {
    assert!(matches!(get_arch(), ArchType::X86_64));
}

#[test]
fn memmap_entry_type_codes() {
    assert!(matches!(MemmapEntryType::try_from(0), Ok(MemmapEntryType::Usable)));
    assert!(matches!(MemmapEntryType::try_from(1), Ok(MemmapEntryType::Reserved)));
    assert!(matches!(MemmapEntryType::try_from(2), Ok(MemmapEntryType::AcpiReclaimable)));
    assert!(matches!(MemmapEntryType::try_from(3), Ok(MemmapEntryType::AcpiNvs)));
    assert!(matches!(MemmapEntryType::try_from(4), Ok(MemmapEntryType::BadMemory)));
    assert!(matches!(MemmapEntryType::try_from(5), Ok(MemmapEntryType::BootloaderReclaimable)));
    assert!(matches!(MemmapEntryType::try_from(6), Ok(MemmapEntryType::KernelAndModules)));
    assert!(matches!(MemmapEntryType::try_from(7), Ok(MemmapEntryType::MemmapFramebuffer)));
    assert!(MemmapEntryType::try_from(8).is_err());
    assert!(MemmapEntryType::try_from(u64::MAX).is_err());
}

#[test]
fn only_usable_regions_stay_unclaimed() {
    assert!(!MemmapEntryType::Usable.must_claim());
    assert!(MemmapEntryType::Reserved.must_claim());
    assert!(MemmapEntryType::KernelAndModules.must_claim());
}

fn test_fb() -> Framebuffer {
    Framebuffer {
        width: 100,
        height: 50,
        pitch: 400,
        bpp: 32,
        red_mask_shift: 16,
        green_mask_shift: 8,
        blue_mask_shift: 0,
    }
}

#[test]
fn pixel_word_and_offset() {
    let fb = test_fb();
    let (idx, pix) = draw_pixel(&fb, 10, 5, (1, 2, 3)).unwrap();
    assert_eq!(idx, 10 + 100 * 5);
    assert_eq!(pix, 0x010203);
}

#[test]
fn pixel_bounds_and_depth_errors() {
    let fb = test_fb();
    assert!(matches!(draw_pixel(&fb, 101, 0, (0, 0, 0)), Err(DrawPixelError::InvalidX)));
    assert!(matches!(draw_pixel(&fb, 0, 51, (0, 0, 0)), Err(DrawPixelError::InvalidY)));
    let mut shallow = test_fb();
    shallow.bpp = 24;
    assert!(matches!(draw_pixel(&shallow, 0, 0, (0, 0, 0)), Err(DrawPixelError::BadProperties)));
}

#[test]
fn log_refuses_overflow_whole() {
    let mut log = StaticLog::new(10);
    assert_eq!(log.remaining_capacity(), 10);
    assert!(log.write_str("hello").is_ok());
    assert_eq!(log.remaining_capacity(), 5);
    // Six more bytes do not fit; nothing is stored.
    assert!(log.write_str("world!").is_err());
    assert_eq!(log.remaining_capacity(), 5);
    assert!(log.write_str("world").is_ok());
    assert_eq!(log.remaining_capacity(), 0);
}

#[test]
fn print_appends_to_log() {
    let mut log = StaticLog::new(16);
    print(&mut log, "boot:");
    print(&mut log, " ok");
    assert_eq!(log.remaining_capacity(), 16 - 8);
}

struct RecordingConsole {
    out: Vec<u8>,
}

impl Console for RecordingConsole {
    fn putb(&mut self, bin: &[u8]) {
        self.out.extend_from_slice(bin);
    }

    fn puts(&mut self, s: &str) {
        self.out.extend_from_slice(s.as_bytes());
    }
}

#[test]
fn console_sink_receives_output() {
    rezos::console::init();
    let mut c = RecordingConsole { out: Vec::new() };
    c.puts("ok");
    c.putb(&[10]);
    assert_eq!(c.out, vec![b'o', b'k', 10]);
}
