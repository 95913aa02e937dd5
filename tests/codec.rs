use fat32::dir::parse_dir;
use fat32::layout::{FatBS, FatExtBS, LongDirEntry, ShortDirEntry};
use fat32::names::{generate_short_name, long_name_split, short_name_format, split_name_ext};
use fat32::utils::{bytes_order_u16, bytes_order_u32, clone_into_array};

fn short(name: &[u8; 8], ext: &[u8; 3], attr: u8) -> ShortDirEntry {
    ShortDirEntry::new(name, ext, attr)
}

fn long_slot(chunk: &[u8], order: u8, chk: u8) -> Vec<u8> {
    let mut l = LongDirEntry::empty();
    l.initialize(chunk, order, chk);
    l.as_bytes()
}

#[test]
fn byte_order_swaps() {
    assert_eq!(bytes_order_u16(0x1234), 0x3412);
    assert_eq!(bytes_order_u32(0x12345678), 0x78563412);
    let a: [u8; 3] = clone_into_array(&[7, 8, 9]);
    assert_eq!(a, [7, 8, 9]);
}

#[test]
fn checksum_of_short_names() {
    assert_eq!(short(b"VERYLO~1", b"TXT", 0x20).checksum(), 67);
    assert_eq!(short(b"HELLO   ", b"TXT", 0x20).checksum(), 241);
    assert_eq!(short(b"README  ", b"MD ", 0x20).checksum(), 243);
}

#[test]
fn short_entry_fields_and_names() {
    let mut e = short(b"HELLO   ", b"TXT", 0x20);
    assert!(e.is_file());
    assert!(!e.is_dir());
    assert!(!e.is_long());
    assert!(e.is_valid());
    assert_eq!(e.get_name_uppercase(), b"HELLO.TXT".to_vec());
    assert_eq!(e.get_name_lowercase(), b"hello.txt".to_vec());
    e.set_first_cluster(0x0012_3456);
    assert_eq!(e.cluster_high, 0x0012);
    assert_eq!(e.cluster_low, 0x3456);
    assert_eq!(e.first_cluster(), 0x0012_3456);
    e.set_size(1025);
    assert_eq!(e.get_size(), 1025);
    assert_eq!(e.data_clusters(512), 3);
    let bytes = e.as_bytes();
    assert_eq!(bytes.len(), 32);
    assert_eq!(&bytes[0..11], b"HELLO   TXT");
    assert_eq!(bytes[20], 0x12);
    assert_eq!(bytes[26], 0x56);
    assert_eq!(bytes[28], 0x01);
    assert_eq!(bytes[29], 0x04);
    let back = ShortDirEntry::from_bytes(&bytes);
    assert_eq!(back.first_cluster(), 0x0012_3456);
    assert_eq!(back.get_size(), 1025);
    e.delete();
    assert!(e.is_deleted());
    assert_eq!(e.first_cluster(), 0);
    assert_eq!(e.get_size(), 0);
    let no_ext = short(b"MAKEFILE", b"   ", 0x20);
    assert_eq!(no_ext.get_name_lowercase(), b"makefile".to_vec());
    assert!(ShortDirEntry::empty().is_empty());
}

#[test]
fn timestamps_decode() {
    let mut e = short(b"A       ", b"   ", 0x20);
    e.modification_date = 0x526f;
    e.modification_time = 0x6daf;
    assert_eq!(e.get_modification_time(), (2021, 3, 15, 13, 45, 30, 1617457530));
    let c = e.get_creation_time();
    assert_eq!((c.0, c.1, c.2), (2021, 4, 28));
    assert_eq!(e.get_accessed_time().3, 0);
}

#[test]
fn long_entry_encodes_chunk() {
    let mut l = LongDirEntry::empty();
    l.initialize(b"hello.txt\0", 0x41, 241);
    assert_eq!(l.get_order(), 0x41);
    assert_eq!(l.get_checksum(), 241);
    assert_eq!(l.attribute(), 0x0F);
    assert_eq!(l.get_name_format(), b"hello.txt".to_vec());
    let raw = l.get_name_raw();
    assert_eq!(&raw[0..9], b"hello.txt");
    assert_eq!(raw[9], 0);
    assert_eq!(raw[10], 0xFF);
    assert_eq!(l.name3, [0xFF, 0xFF, 0xFF, 0xFF]);
    let bytes = l.as_bytes();
    assert_eq!(bytes[1], b'h');
    assert_eq!(bytes[2], 0);
    let back = LongDirEntry::from_bytes(&bytes);
    assert_eq!(back.get_name_format(), b"hello.txt".to_vec());
    l.delete();
    assert!(l.is_deleted());
    assert!(!l.is_valid());
}

#[test]
fn long_entry_full_chunk_has_no_padding() {
    let mut l = LongDirEntry::empty();
    l.initialize(b"abcdefghijklm", 1, 0);
    assert_eq!(l.get_name_format(), b"abcdefghijklm".to_vec());
    assert_eq!(l.get_name_raw(), b"abcdefghijklm".to_vec());
}

#[test]
fn long_name_split_slot_counts() {
    assert_eq!(long_name_split(&[b'a'; 13], true).len(), 1);
    assert_eq!(long_name_split(&[b'a'; 13], true)[0].len(), 13);
    assert_eq!(long_name_split(&[b'a'; 14], true).len(), 2);
    assert_eq!(long_name_split(&[b'a'; 14], true)[1], vec![b'a', 0]);
    assert_eq!(long_name_split(&[b'a'; 26], true).len(), 2);
    assert_eq!(long_name_split(b"verylongfilename.txt", false)[1], b"ame.txt".to_vec());
}

#[test]
fn name_splitting_and_short_forms() {
    let (b, e) = split_name_ext(b"archive.tar.gz");
    assert_eq!(b, b"archive".to_vec());
    assert_eq!(e, b"tar".to_vec());
    let (b, e) = split_name_ext(b"noext");
    assert_eq!(b, b"noext".to_vec());
    assert!(e.is_empty());
    assert_eq!(short_name_format(b"hello.txt"), (*b"HELLO   ", *b"TXT"));
    assert_eq!(short_name_format(b".."), (*b"..      ", *b"   "));
    assert_eq!(generate_short_name(b"verylongfilename.txt"), b"VERYLO~1TXT".to_vec());
    assert_eq!(generate_short_name(b"abc.markdown"), b"ABC~1   MAR".to_vec());
}

#[test]
fn boot_sector_decodes() {
    let mut b = vec![0u8; 512];
    b[11] = 0;
    b[12] = 2;
    b[13] = 8;
    b[14] = 32;
    b[16] = 2;
    b[19] = 0;
    b[32..36].copy_from_slice(&131072u32.to_le_bytes());
    b[36..40].copy_from_slice(&504u32.to_le_bytes());
    b[44] = 2;
    b[48] = 1;
    let bs = FatBS::from_bytes(&b);
    assert_eq!({ bs.bytes_per_sector }, 512);
    assert_eq!(bs.total_sectors(), 131072);
    assert_eq!(bs.first_fat_sector(), 32);
    let ebs = FatExtBS::from_bytes(&b);
    assert_eq!(ebs.fat_size(), 504);
    assert_eq!(ebs.fat_info_sec(), 1);
    assert_eq!(ebs.root_clusters(), 2);
}

#[test]
fn scan_skips_deleted_and_stops_at_terminator() {
    let mut dir = Vec::new();
    dir.extend(short(b"FIRST   ", b"TXT", 0x20).as_bytes());
    let mut gone = short(b"GONE    ", b"TXT", 0x20);
    gone.delete();
    dir.extend(gone.as_bytes());
    dir.extend(short(b"THIRD   ", b"   ", 0x10).as_bytes());
    dir.extend(vec![0u8; 32]);
    dir.extend(short(b"HIDDEN  ", b"TXT", 0x20).as_bytes());
    let items = parse_dir(&dir);
    let names: Vec<Vec<u8>> = items.iter().map(|i| i.name.clone()).collect();
    assert_eq!(names, vec![b"first.txt".to_vec(), b"third".to_vec()]);
    assert_eq!(items[1].slot, 2);
    assert!(items[1].entry.is_dir());
}

#[test]
fn checksum_mismatch_falls_back_to_short_name() {
    let s = short(b"VERYLO~1", b"TXT", 0x20);
    let good = s.checksum();
    let mut dir = Vec::new();
    dir.extend(long_slot(b"ame.txt\0", 0x42, good));
    dir.extend(long_slot(b"verylongfilen", 0x01, good));
    dir.extend(s.as_bytes());
    dir.extend(long_slot(b"other\0", 0x41, good.wrapping_add(1)));
    dir.extend(short(b"OTHER~1 ", b"   ", 0x20).as_bytes());
    let items = parse_dir(&dir);
    assert_eq!(items.len(), 2);
    assert_eq!(items[0].name, b"verylongfilename.txt".to_vec());
    assert_eq!(items[0].long_slots, vec![0, 1]);
    assert_eq!(items[1].name, b"other~1".to_vec());
}
