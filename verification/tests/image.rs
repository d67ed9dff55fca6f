//! Tests of the image builder: empty and small builds checked byte by
//! byte, and the builder's error cases.

use rezos::plexus::{head_to_sector, inode_to_sector, mkfs, BuildError, Chunk, Head, Inode, InputFile};

fn le32(v: u32) -> [u8; 4] {
    [
        (v & 0xff) as u8,
        ((v >> 8) & 0xff) as u8,
        ((v >> 16) & 0xff) as u8,
        ((v >> 24) & 0xff) as u8,
    ]
}

#[test]
fn head_sector_layout() {
    let h = Head {
        version: 1,
        fat: Chunk::new(1, 4),
        dat: Chunk::new(5, 6),
    };
    let sec = head_to_sector(&h);
    assert_eq!(sec.len(), 512);
    assert_eq!(&sec[0..2], &[1, 0]);
    assert_eq!(&sec[2..6], b"head");
    assert_eq!(&sec[6..10], &le32(1));
    assert_eq!(&sec[10..14], &le32(4));
    assert_eq!(&sec[14..18], &le32(5));
    assert_eq!(&sec[18..22], &le32(6));
    assert!(sec[22..].iter().all(|&b| b == 0));
}

#[test]
fn inode_sector_layout() {
    let ino = Inode::new(b"note".as_slice());
    let sec = inode_to_sector(&ino);
    assert_eq!(sec.len(), 512);
    assert_eq!(&sec[0..4], b"note");
    assert!(sec[4..64].iter().all(|&b| b == 0));
    assert!(sec[64..512].iter().all(|&b| b == 0));
}

#[test]
fn empty_input_directory() {
    let files: Vec<InputFile> = Vec::new();
    let img = mkfs(&files, 4, 2).unwrap();
    assert_eq!(img.len(), (1 + 4 + 2) * 512);
    // Sector 0: version 1, magic, fat = (1, 4), dat = (5, 6).
    assert_eq!(&img[0..2], &[1, 0]);
    assert_eq!(&img[2..6], b"head");
    assert_eq!(&img[6..14], &[1, 0, 0, 0, 4, 0, 0, 0]);
    assert_eq!(&img[14..22], &[5, 0, 0, 0, 6, 0, 0, 0]);
    assert!(img[22..512].iter().all(|&b| b == 0));
    // Sector 1: apex inode named "/", everything else zero.
    assert_eq!(img[512], b'/');
    assert!(img[513..1024].iter().all(|&b| b == 0));
    // Sectors 2 through 6: zeros.
    assert!(img[1024..].iter().all(|&b| b == 0));
}

#[test]
fn single_300_byte_file() {
    let content: Vec<u8> = (0..300u32).map(|i| (i % 251) as u8 + 1).collect();
    let files = vec![InputFile { name: b"note".to_vec(), content: content.clone() }];
    let img = mkfs(&files, 4, 2).unwrap();
    assert_eq!(img.len(), (1 + 4 + 2) * 512);
    // Apex front link table entry 0 points at sector 2.
    assert_eq!(&img[512 + 64..512 + 68], &[2, 0, 0, 0]);
    // Sector 2: the file inode.
    let ino = &img[1024..1536];
    assert_eq!(&ino[0..4], b"note");
    assert!(ino[4..64].iter().all(|&b| b == 0));
    // Front links all zero; back link 0 is the apex (sector 1).
    assert!(ino[64..264].iter().all(|&b| b == 0));
    assert_eq!(&ino[264..268], &[1, 0, 0, 0]);
    assert!(ino[268..464].iter().all(|&b| b == 0));
    // Fragment 0 is sectors (5, 5).
    assert_eq!(&ino[464..472], &[5, 0, 0, 0, 5, 0, 0, 0]);
    assert!(ino[472..512].iter().all(|&b| b == 0));
    // Sector 5: the 300 content bytes, then 212 zeros.
    assert_eq!(&img[5 * 512..5 * 512 + 300], &content[..]);
    assert!(img[5 * 512 + 300..6 * 512].iter().all(|&b| b == 0));
    // Sector 6 stays zero.
    assert!(img[6 * 512..7 * 512].iter().all(|&b| b == 0));
}

#[test]
fn single_1024_byte_file() {
    let content: Vec<u8> = (0..1024u32).map(|i| (i % 199) as u8 + 7).collect();
    let files = vec![InputFile { name: b"kern".to_vec(), content: content.clone() }];
    let img = mkfs(&files, 4, 2).unwrap();
    // The payload occupies sectors 5 and 6 exactly; no sector beyond the
    // data area's end.
    assert_eq!(img.len(), (1 + 4 + 2) * 512);
    let ino = &img[1024..1536];
    assert_eq!(&ino[464..472], &[5, 0, 0, 0, 6, 0, 0, 0]);
    assert_eq!(&img[5 * 512..7 * 512], &content[..]);
}

#[test]
fn too_many_files_for_fat() {
    let files = vec![
        InputFile { name: b"a".to_vec(), content: vec![1] },
        InputFile { name: b"b".to_vec(), content: vec![2] },
    ];
    // max_file_count 2 leaves room for one file beside the apex.
    assert!(matches!(mkfs(&files, 2, 4), Err(BuildError::TooManyFiles)));
    assert!(mkfs(&files, 3, 4).is_ok());
}

#[test]
fn too_much_data_for_dat() {
    let files = vec![InputFile { name: b"big".to_vec(), content: vec![9; 1500] }];
    // 1500 bytes need three sectors; a two-sector data area cannot hold them.
    assert!(matches!(mkfs(&files, 4, 2), Err(BuildError::TooMuchData)));
    assert!(mkfs(&files, 4, 3).is_ok());
}

#[test]
fn empty_file_gets_null_fragment() {
    let files = vec![InputFile { name: b"nil".to_vec(), content: Vec::new() }];
    let img = mkfs(&files, 4, 2).unwrap();
    let ino = &img[1024..1536];
    // No data sectors: the fragment table stays null.
    assert!(ino[464..512].iter().all(|&b| b == 0));
    // The apex still links the inode.
    assert_eq!(&img[512 + 64..512 + 68], &[2, 0, 0, 0]);
}

#[test]
fn two_files_sequential_fragments() {
    let files = vec![
        InputFile { name: b"one".to_vec(), content: vec![0xAA; 600] },
        InputFile { name: b"two".to_vec(), content: vec![0xBB; 100] },
    ];
    let img = mkfs(&files, 8, 4).unwrap();
    assert_eq!(img.len(), (1 + 8 + 4) * 512);
    // Apex links sectors 2 and 3.
    assert_eq!(&img[512 + 64..512 + 72], &[2, 0, 0, 0, 3, 0, 0, 0]);
    // First file: two sectors starting at the data area (sector 9).
    let ino1 = &img[2 * 512..3 * 512];
    assert_eq!(&ino1[464..472], &[9, 0, 0, 0, 10, 0, 0, 0]);
    // Second file: one sector right after.
    let ino2 = &img[3 * 512..4 * 512];
    assert_eq!(&ino2[464..472], &[11, 0, 0, 0, 11, 0, 0, 0]);
    // Payloads land back to back.
    assert!(img[9 * 512..9 * 512 + 600].iter().all(|&b| b == 0xAA));
    assert!(img[9 * 512 + 600..11 * 512].iter().all(|&b| b == 0));
    assert!(img[11 * 512..11 * 512 + 100].iter().all(|&b| b == 0xBB));
}

#[test]
fn chunk_constructors() {
    let n = Chunk::null();
    assert_eq!((n.start, n.end), (0, 0));
    let c = Chunk::new(3, 9);
    assert_eq!((c.start, c.end), (3, 9));
}

#[test]
fn plexus_config_default() {
    let cfg = rezos::plexus::Config::default();
    assert_eq!(cfg.input, "../initrd/");
    assert_eq!(cfg.output, "../build/initrd.bin");
    assert_eq!(cfg.max_file_count, 1024);
    assert_eq!(cfg.init_file_size, 512);
}
