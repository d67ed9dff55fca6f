//! Tests of the bootable-image records and assembly: super block and inode
//! construction, content sectoring, planning, and the final byte layout.

use rezos::blocks::{Cluster, Inode, SuperBlock};
use rezos::config::{Config, Target};
use rezos::mkfs::{content_sectors, mkfs_plan, Image, MkfsError};

#[test]
fn superblock_new() {
    let sb = SuperBlock::new(1, 512);
    assert_eq!(sb.sign, 0x4321);
    assert_eq!(sb.version, 1);
    assert_eq!(sb.blocksize, 512);
    assert!(sb.directboot.is_none());
    assert!(sb.root.is_none());
}

#[test]
fn inode_new_is_blank() {
    let ino = Inode::new();
    assert_eq!(ino.name.len(), 32);
    assert!(ino.name.iter().all(|&c| c == '\u{0}'));
    assert_eq!(ino.flt.len(), 32);
    assert!(ino.flt.iter().all(|&a| a == 0));
    assert_eq!(ino.blt.len(), 32);
    assert!(ino.blt.iter().all(|&a| a == 0));
    assert_eq!(ino.dat.len(), 16);
    assert!(ino.dat.iter().all(|c| c.start == 0 && c.end == 0));
}

#[test]
fn inode_name_writes_prefix() {
    let mut ino = Inode::new();
    ino.name("hi");
    assert_eq!(ino.name[0], 'h');
    assert_eq!(ino.name[1], 'i');
    assert!(ino.name[2..].iter().all(|&c| c == '\u{0}'));
}

#[test]
fn content_sectors_splits_and_pads() {
    let content: Vec<u8> = (0..700u32).map(|i| (i % 250) as u8 + 1).collect();
    let sectors = content_sectors(&content);
    assert_eq!(sectors.len(), 2);
    assert!(sectors.iter().all(|s| s.len() == 512));
    assert_eq!(&sectors[0][..], &content[0..512]);
    assert_eq!(&sectors[1][0..188], &content[512..700]);
    assert!(sectors[1][188..].iter().all(|&b| b == 0));
}

#[test]
fn content_sectors_empty_content() {
    let sectors = content_sectors(&Vec::new());
    assert_eq!(sectors.len(), 0);
}

#[test]
fn plan_rejects_bad_targets() {
    let mut cfg = Config::default();
    cfg.bootloader = Target::Dir(Vec::new());
    let r = mkfs_plan(&cfg, &vec![1, 2], &"kernel.bin".to_string(), 100);
    assert!(matches!(r, Err(MkfsError::BadConfig)));

    let mut cfg2 = Config::default();
    cfg2.output = Target::Raw(Vec::new());
    let r2 = mkfs_plan(&cfg2, &vec![1, 2], &"kernel.bin".to_string(), 100);
    assert!(matches!(r2, Err(MkfsError::BadConfig)));

    let mut cfg3 = Config::default();
    cfg3.source = Target::Raw(Vec::new());
    let r3 = mkfs_plan(&cfg3, &vec![1, 2], &"kernel.bin".to_string(), 100);
    assert!(matches!(r3, Err(MkfsError::BadConfig)));
}

#[test]
fn plan_rejects_empty_bootloader() {
    let cfg = Config::default();
    let r = mkfs_plan(&cfg, &Vec::new(), &"kernel.bin".to_string(), 100);
    assert!(matches!(r, Err(MkfsError::EmptyBootloader)));
}

#[test]
fn plan_places_kernel_cluster_and_directboot() {
    let cfg = Config::default();
    let plan = mkfs_plan(&cfg, &vec![0xEB, 0x3C], &"kernel.bin".to_string(), 1000).unwrap();
    // 1000 bytes need two sectors: cluster (1, 2).
    assert_eq!(plan.location, Cluster { start: 1, end: 2 });
    assert_eq!(plan.sb.sign, 0x4321);
    assert_eq!(plan.sb.version, 1);
    assert_eq!(plan.sb.blocksize, 512);
    assert_eq!(plan.sb.directboot, Some(Cluster { start: 1, end: 2 }));
    assert!(plan.sb.root.is_none());
    assert_eq!(plan.inode.dat[0], Cluster { start: 1, end: 2 });
    let name: String = plan.inode.name.iter().take_while(|&&c| c != '\u{0}').collect();
    assert_eq!(name, "kernel.bin");
}

#[test]
fn plan_without_directboot_for_other_names() {
    let cfg = Config::default();
    let plan = mkfs_plan(&cfg, &vec![0xEB], &"other.bin".to_string(), 100).unwrap();
    assert!(plan.sb.directboot.is_none());

    let mut cfg2 = Config::default();
    cfg2.directboot = false;
    let plan2 = mkfs_plan(&cfg2, &vec![0xEB], &"kernel.bin".to_string(), 100).unwrap();
    assert!(plan2.sb.directboot.is_none());
}

#[test]
fn image_build_concatenates() {
    let sb = SuperBlock::new(1, 512);
    let mut img = Image::new(sb, vec![0xEB, 0x3C, 0x90]);
    img.nodes.push(vec![7; 512]);
    img.nodes.push(vec![8; 512]);
    let sb_bytes = vec![0x21, 0x43, 1, 0];
    let mut out: Vec<u8> = Vec::new();
    img.build(&sb_bytes, &mut out);
    assert_eq!(out.len(), 3 + 4 + 1024);
    assert_eq!(&out[0..3], &[0xEB, 0x3C, 0x90]);
    assert_eq!(&out[3..7], &[0x21, 0x43, 1, 0]);
    assert!(out[7..519].iter().all(|&b| b == 7));
    assert!(out[519..].iter().all(|&b| b == 8));
}
