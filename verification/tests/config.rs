//! Tests of the builder configuration: defaults, argument parsing, and the
//! number parser.

use rezos::config::{is_direct_boot_target, parse_u16, Config, Target};

fn args(list: &[&str]) -> Vec<String> {
    list.iter().map(|s| s.to_string()).collect()
}

fn file_path(t: &Target) -> &str {
    match t {
        Target::File(s) => s.as_str(),
        _ => panic!("expected a file target"),
    }
}

#[test]
fn default_configuration() {
    let cfg = Config::default();
    assert_eq!(file_path(&cfg.bootloader), "build/boot.bin");
    assert_eq!(file_path(&cfg.output), "build/RezOS.bin");
    assert_eq!(file_path(&cfg.source), "build/kernel.bin");
    assert!(cfg.directboot);
    assert_eq!(cfg.block_size, 512);
}

#[test]
fn argload_sets_paths_and_flags() {
    let cfg = Config::argload(&args(&[
        "mkfs",
        "-b",
        "stage1.bin",
        "-o",
        "disk.img",
        "-s",
        "payload.bin",
        "--no-directboot",
        "--block_size",
        "256",
    ]));
    assert_eq!(file_path(&cfg.bootloader), "stage1.bin");
    assert_eq!(file_path(&cfg.output), "disk.img");
    assert_eq!(file_path(&cfg.source), "payload.bin");
    assert!(!cfg.directboot);
    assert_eq!(cfg.block_size, 256);
}

#[test]
fn argload_without_options_keeps_defaults() {
    let cfg = Config::argload(&args(&["mkfs", "something", "else"]));
    assert_eq!(file_path(&cfg.bootloader), "build/boot.bin");
    assert!(cfg.directboot);
    assert_eq!(cfg.block_size, 512);
}

#[test]
fn argload_later_options_win() {
    let cfg = Config::argload(&args(&["mkfs", "-b", "first.bin", "-b", "second.bin"]));
    assert_eq!(file_path(&cfg.bootloader), "second.bin");
}

#[test]
fn argload_trailing_flag_has_no_effect() {
    // A flag in the last position is only seen as "previous" by a next
    // argument that never comes.
    let cfg = Config::argload(&args(&["mkfs", "--no-directboot"]));
    assert!(cfg.directboot);
    let cfg2 = Config::argload(&args(&["mkfs", "--no-directboot", "x"]));
    assert!(!cfg2.directboot);
}

#[test]
fn parse_u16_accepts_digit_strings() {
    assert_eq!(parse_u16("0"), Some(0));
    assert_eq!(parse_u16("007"), Some(7));
    assert_eq!(parse_u16("512"), Some(512));
    assert_eq!(parse_u16("65535"), Some(65535));
}

#[test]
fn parse_u16_rejects_bad_input() {
    assert_eq!(parse_u16(""), None);
    assert_eq!(parse_u16("12a"), None);
    assert_eq!(parse_u16("-5"), None);
    assert_eq!(parse_u16("65536"), None);
    assert_eq!(parse_u16("99999"), None);
}

#[test]
fn direct_boot_target_name() {
    assert!(is_direct_boot_target(&"kernel.bin".to_string()));
    assert!(!is_direct_boot_target(&"kernel".to_string()));
    assert!(!is_direct_boot_target(&"".to_string()));
}
