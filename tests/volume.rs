use fat32::block_dev::RamDisk;
use fat32::fat32_manager::FAT32Manager;

/// Sectors of a 64 MiB image.
const SECTORS: usize = 131072;

fn put16(img: &mut [u8], at: usize, v: u16) {
    img[at..at + 2].copy_from_slice(&v.to_le_bytes());
}

fn put32(img: &mut [u8], at: usize, v: u32) {
    img[at..at + 4].copy_from_slice(&v.to_le_bytes());
}

/// A freshly formatted 64 MiB volume: one sector per cluster, 32 reserved
/// sectors, two tables of 504 sectors, the root directory at cluster 2.
fn fresh_image() -> Vec<u8> {
    let mut img = vec![0u8; SECTORS * 512];
    img[0] = 0xEB;
    img[1] = 0x58;
    img[2] = 0x90;
    img[3..11].copy_from_slice(b"MSWIN4.1");
    put16(&mut img, 11, 512);
    img[13] = 1;
    put16(&mut img, 14, 32);
    img[16] = 2;
    img[21] = 0xF8;
    put32(&mut img, 32, SECTORS as u32);
    put32(&mut img, 36, 504);
    put32(&mut img, 44, 2);
    put16(&mut img, 48, 1);
    put16(&mut img, 50, 6);
    img[66] = 0x29;
    img[510] = 0x55;
    img[511] = 0xAA;
    let fsi = 512;
    put32(&mut img, fsi, 0x41615252);
    put32(&mut img, fsi + 484, 0x61417272);
    put32(&mut img, fsi + 488, 130560);
    put32(&mut img, fsi + 492, 2);
    for fat in [32usize, 32 + 504] {
        let base = fat * 512;
        put32(&mut img, base, 0x0FFFFFF8);
        put32(&mut img, base + 4, 0xFFFFFFFF);
        put32(&mut img, base + 8, 0x0FFFFFFF);
    }
    img
}

fn mount() -> FAT32Manager<RamDisk> {
    match FAT32Manager::open(RamDisk::from_bytes(fresh_image()), 16) {
        Ok(m) => m,
        Err(e) => panic!("mount failed: {:?}", e),
    }
}

#[test]
fn mount_fresh_volume() {
    let mut m = mount();
    assert_eq!(m.free_clusters(), 130560);
    assert_eq!(m.get_root_dirent().first_cluster(), 2);
    assert_eq!(m.bytes_per_sector(), 512);
    assert_eq!(m.sectors_per_cluster(), 1);
    assert_eq!(m.bytes_per_cluster(), 512);
    assert_eq!(m.first_data_sector(), 32 + 2 * 504);
}

use fat32::block_cache::BlockCache;
use fat32::block_dev::BlockDevice;
use fat32::fat32_manager::FsError;
use fat32::vfs::VFile;

fn root_names(m: &mut FAT32Manager<RamDisk>) -> Vec<Vec<u8>> {
    VFile::root().ls(m).into_iter().map(|(n, _)| n).collect()
}

fn new_file(m: &mut FAT32Manager<RamDisk>, name: &str) -> VFile {
    match VFile::root().create(name.as_bytes(), 0x20, m) {
        Ok(f) => f,
        Err(e) => panic!("create failed: {:?}", e),
    }
}

fn write_all(m: &mut FAT32Manager<RamDisk>, f: &VFile, offset: usize, data: &[u8]) {
    let end = (offset + data.len()) as u32;
    assert!(f.grow_to(end, m).is_ok());
    let e = f.get_entry(m);
    assert_eq!(e.write_at(offset, data, m), data.len());
}

fn fat1_entry(m: &mut FAT32Manager<RamDisk>, c: u32) -> u32 {
    let fat = m.get_fat();
    let b = m.cache.read((fat.fat1_sector + c / 128) as usize, (4 * (c % 128)) as usize, 4, fat32::block_cache::Pool::Info);
    u32::from_le_bytes([b[0], b[1], b[2], b[3]])
}

fn fat2_entry(m: &mut FAT32Manager<RamDisk>, c: u32) -> u32 {
    let fat = m.get_fat();
    let b = m.cache.read((fat.fat2_sector + c / 128) as usize, (4 * (c % 128)) as usize, 4, fat32::block_cache::Pool::Info);
    u32::from_le_bytes([b[0], b[1], b[2], b[3]])
}

fn chain_of(m: &mut FAT32Manager<RamDisk>, first: u32) -> Vec<u32> {
    let fat = m.get_fat();
    fat.get_all_cluster_of(first, &mut m.cache)
}

#[test]
fn fresh_root_is_empty() {
    let mut m = mount();
    assert!(root_names(&mut m).is_empty());
}

#[test]
fn create_write_reopen_read() {
    let mut m = mount();
    let f = new_file(&mut m, "hello.txt");
    write_all(&mut m, &f, 0, b"hi");
    let again = VFile::root().find_vfile_byname(b"hello.txt", &mut m).expect("reopen");
    let st = again.stat(&mut m);
    assert_eq!(st.size, 2);
    assert_ne!(st.first_cluster, 0);
    assert_eq!(again.read_at(0, 2, &mut m), b"hi".to_vec());
    assert_eq!(root_names(&mut m), vec![b"hello.txt".to_vec()]);
}

#[test]
fn write_600_bytes_takes_two_clusters() {
    let mut m = mount();
    let f = new_file(&mut m, "data.bin");
    let data: Vec<u8> = (0..600u32).map(|i| (i * 7 % 251) as u8).collect();
    write_all(&mut m, &f, 0, &data);
    let st = f.stat(&mut m);
    let fat = m.get_fat();
    assert_eq!(fat.count_cluster_num(st.first_cluster, &mut m.cache), 2);
    assert_eq!(f.read_at(0, 600, &mut m), data);
}

#[test]
fn long_name_takes_three_slots() {
    let mut m = mount();
    let f = new_file(&mut m, "verylongfilename.txt");
    assert_eq!(f.long_pos.len(), 2);
    let e = f.get_entry(&mut m);
    assert_eq!(&e.name, b"VERYLO~1");
    assert_eq!(&e.extension, b"TXT");
    let root = VFile::root();
    let bytes = root.all_bytes(&mut m);
    let items = fat32::dir::parse_dir(&bytes);
    assert_eq!(items.len(), 1);
    assert_eq!(items[0].name, b"verylongfilename.txt".to_vec());
    assert_eq!(items[0].slot, 2);
    assert_eq!(bytes[13], bytes[32 + 13]);
    assert_eq!(bytes[13], e.checksum());
    assert_eq!(bytes[0], 0x42);
    assert_eq!(bytes[32], 0x01);
}

#[test]
fn remove_frees_chain_and_marks_slot() {
    let mut m = mount();
    let f = new_file(&mut m, "gone.txt");
    let data = vec![5u8; 1500];
    write_all(&mut m, &f, 0, &data);
    let first = f.stat(&mut m).first_cluster;
    let chain = chain_of(&mut m, first);
    assert_eq!(chain.len(), 3);
    let before = m.free_clusters();
    assert!(f.remove(&mut m).is_ok());
    assert_eq!(m.free_clusters(), before + chain.len() as u32);
    let b = m.cache.read(f.short_sector, f.short_offset, 1, fat32::block_cache::Pool::Info);
    assert_eq!(b[0], 0xE5);
    for c in chain {
        assert_eq!(fat1_entry(&mut m, c), 0);
        assert_eq!(fat2_entry(&mut m, c), 0);
    }
    assert!(root_names(&mut m).is_empty());
}

#[test]
fn create_remove_create_same_stat() {
    let mut m = mount();
    let f = new_file(&mut m, "again.txt");
    let s1 = f.stat(&mut m);
    assert!(f.remove(&mut m).is_ok());
    let g = new_file(&mut m, "again.txt");
    let s2 = g.stat(&mut m);
    assert_eq!(s1, s2);
    assert_eq!(root_names(&mut m), vec![b"again.txt".to_vec()]);
}

#[test]
fn two_writers_get_disjoint_chains() {
    let mut m = mount();
    let a = new_file(&mut m, "a.txt");
    let b = new_file(&mut m, "b.txt");
    let ka = vec![0xAAu8; 1024];
    let kb = vec![0xBBu8; 1024];
    write_all(&mut m, &a, 0, &ka);
    write_all(&mut m, &b, 0, &kb);
    let fa = a.stat(&mut m).first_cluster;
    let fb = b.stat(&mut m).first_cluster;
    let ca = chain_of(&mut m, fa);
    let cb = chain_of(&mut m, fb);
    assert_eq!(ca.len(), 2);
    assert_eq!(cb.len(), 2);
    for c in &ca {
        assert!(!cb.contains(c));
    }
    assert_eq!(a.read_at(0, 1024, &mut m), ka);
    assert_eq!(b.read_at(0, 1024, &mut m), kb);
}

#[test]
fn alloc_gives_chain_of_requested_length() {
    let mut m = mount();
    let before = m.free_clusters();
    let first = m.alloc_cluster(5).expect("space");
    let fat = m.get_fat();
    assert_eq!(fat.count_cluster_num(first, &mut m.cache), 5);
    assert_eq!(m.free_clusters(), before - 5);
    let chain = chain_of(&mut m, first);
    for &c in &chain {
        assert_eq!(fat1_entry(&mut m, c), fat2_entry(&mut m, c));
    }
    m.dealloc_cluster(chain.clone());
    assert_eq!(m.free_clusters(), before);
    for &c in &chain {
        assert_eq!(fat1_entry(&mut m, c), 0);
        assert_eq!(fat2_entry(&mut m, c), 0);
    }
}

#[test]
fn alloc_refuses_more_than_free() {
    let mut m = mount();
    let free = m.free_clusters();
    assert_eq!(m.alloc_cluster(free + 1), None);
    assert_eq!(m.alloc_cluster(0), None);
    assert_eq!(m.free_clusters(), free);
}

#[test]
fn write_across_cluster_boundary_reads_back() {
    let mut m = mount();
    let f = new_file(&mut m, "span.bin");
    write_all(&mut m, &f, 0, &vec![1u8; 1024]);
    let patch: Vec<u8> = (0..100u8).collect();
    let e = f.get_entry(&mut m);
    assert_eq!(e.write_at(470, &patch, &mut m), 100);
    assert_eq!(f.read_at(470, 100, &mut m), patch);
    assert_eq!(f.read_at(0, 470, &mut m), vec![1u8; 470]);
}

#[test]
fn read_past_end_is_cut_at_size() {
    let mut m = mount();
    let f = new_file(&mut m, "short.txt");
    write_all(&mut m, &f, 0, b"abcdef");
    assert_eq!(f.read_at(4, 100, &mut m), b"ef".to_vec());
    assert!(f.read_at(6, 10, &mut m).is_empty());
}

#[test]
fn size_exactly_one_cluster() {
    let mut m = mount();
    let f = new_file(&mut m, "one.bin");
    write_all(&mut m, &f, 0, &vec![9u8; 512]);
    let first = f.stat(&mut m).first_cluster;
    assert_eq!(chain_of(&mut m, first).len(), 1);
    assert_eq!(f.read_at(0, 1000, &mut m), vec![9u8; 512]);
}

#[test]
fn directory_grows_past_its_cluster() {
    let mut m = mount();
    for i in 0..12 {
        let name = format!("file{:02}.txt", i);
        new_file(&mut m, &name);
    }
    let names = root_names(&mut m);
    assert_eq!(names.len(), 12);
    assert_eq!(chain_of(&mut m, 2).len(), 2);
    assert_eq!(names[11], b"file11.txt".to_vec());
}

#[test]
fn create_directory_and_file_inside() {
    let mut m = mount();
    let d = match VFile::root().create(b"sub", 0x10, &mut m) {
        Ok(d) => d,
        Err(e) => panic!("{:?}", e),
    };
    assert!(d.is_dir());
    let names: Vec<Vec<u8>> = d.ls(&mut m).into_iter().map(|(n, _)| n).collect();
    assert_eq!(names, vec![b".".to_vec(), b"..".to_vec()]);
    let inner = d.create(b"inner.txt", 0x20, &mut m).expect("inner");
    assert_eq!(inner.name, b"inner.txt".to_vec());
    assert_eq!(d.remove(&mut m), Err(FsError::NotEmpty));
}

#[test]
fn create_rejects_bad_names() {
    let mut m = mount();
    assert_eq!(VFile::root().create(b"", 0x20, &mut m).err(), Some(FsError::InvalidName));
    assert_eq!(VFile::root().create(b"a/b", 0x20, &mut m).err(), Some(FsError::InvalidName));
    let long = vec![b'x'; 256];
    assert_eq!(VFile::root().create(&long, 0x20, &mut m).err(), Some(FsError::NameTooLong));
    let f = new_file(&mut m, "plain.txt");
    assert_eq!(f.create(b"x", 0x20, &mut m).err(), Some(FsError::NotADirectory));
}

#[test]
fn cache_evicts_and_keeps_contents() {
    let disk = RamDisk::new(64);
    let mut c = BlockCache::new(disk, 2);
    for s in 0..10usize {
        c.write(s, 0, &[s as u8, 1, 2, 3], fat32::block_cache::Pool::Data);
    }
    for s in 0..10usize {
        assert_eq!(c.read(s, 0, 4, fat32::block_cache::Pool::Info), vec![s as u8, 1, 2, 3]);
    }
    c.write_back();
    assert_eq!(c.device().as_bytes()[5 * 512], 5);
    assert_eq!(c.device().num_blocks(), 64);
}

#[test]
fn mount_rejects_bad_signature() {
    let mut img = fresh_image();
    img[512] = 0;
    assert_eq!(FAT32Manager::open(RamDisk::from_bytes(img), 4).err(), Some(FsError::Corrupt));
}

#[test]
fn path_lookup_descends() {
    let mut m = mount();
    let d = VFile::root().create(b"docs", 0x10, &mut m).expect("dir");
    let f = d.create(b"notes.txt", 0x20, &mut m).expect("file");
    write_all(&mut m, &f, 0, b"abc");
    let found = VFile::root().find_by_path(b"/docs/notes.txt", &mut m).expect("path");
    assert_eq!(found.name, b"notes.txt".to_vec());
    assert_eq!(found.read_at(0, 3, &mut m), b"abc".to_vec());
    assert!(VFile::root().find_by_path(b"/docs/missing", &mut m).is_none());
    assert!(VFile::root().find_by_path(b"/docs/notes.txt/x", &mut m).is_none());
}

#[test]
fn grow_from_empty_sets_first_cluster() {
    let mut m = mount();
    let f = new_file(&mut m, "empty.txt");
    let s0 = f.stat(&mut m);
    assert_eq!((s0.size, s0.first_cluster), (0, 0));
    assert!(f.grow_to(10, &mut m).is_ok());
    let s1 = f.stat(&mut m);
    assert_eq!(s1.size, 10);
    assert_ne!(s1.first_cluster, 0);
    let needed = m.cluster_num_needed(10, 1100, false, s1.first_cluster);
    assert_eq!(needed, 2);
}

#[test]
fn clear_keeps_entry_without_data() {
    let mut m = mount();
    let f = new_file(&mut m, "keep.txt");
    write_all(&mut m, &f, 0, b"xyz");
    f.clear(&mut m);
    let st = f.stat(&mut m);
    assert_eq!((st.size, st.first_cluster), (0, 0));
    assert_eq!(root_names(&mut m), vec![b"keep.txt".to_vec()]);
    assert!(f.read_at(0, 3, &mut m).is_empty());
}

#[test]
fn position_of_an_offset() {
    let mut m = mount();
    let f = new_file(&mut m, "pos.bin");
    write_all(&mut m, &f, 0, &vec![3u8; 1024]);
    let e = f.get_entry(&mut m);
    let chain = chain_of(&mut m, e.first_cluster());
    let (c, sec, off) = e.get_pos(600, &mut m).expect("inside");
    assert_eq!(c, chain[1]);
    assert_eq!(sec, 1040 + (c as usize - 2));
    assert_eq!(off, 88);
    assert_eq!(f.write_at(1000, b"0123456789", &mut m), 10);
    let mut want = b"0123456789".to_vec();
    want.extend(vec![3u8; 14]);
    assert_eq!(e.read_at(1000, 30, &mut m), want);
}

#[test]
fn create_mounts_like_open() {
    let mut m = match FAT32Manager::create(RamDisk::from_bytes(fresh_image()), 8) {
        Ok(m) => m,
        Err(e) => panic!("{:?}", e),
    };
    assert_eq!(m.free_clusters(), 130560);
    let r = m.get_root_vfile();
    assert!(r.is_dir());
}

#[test]
fn open_creates_truncates_and_replaces() {
    let mut m = mount();
    let root = VFile::root();
    assert!(fat32::vfs::open(&root, b"dir1", true, false, true, &mut m).is_some());
    let f = fat32::vfs::open(&root, b"dir1/log.txt", true, false, false, &mut m).expect("create");
    assert_eq!(f.name, b"log.txt".to_vec());
    write_all(&mut m, &f, 0, b"12345");
    let g = fat32::vfs::open(&root, b"/dir1/log.txt", false, false, false, &mut m).expect("open");
    assert_eq!(g.read_at(0, 5, &mut m), b"12345".to_vec());
    let t = fat32::vfs::open(&root, b"/dir1/log.txt", false, true, false, &mut m).expect("trunc");
    assert_eq!(t.stat(&mut m).size, 0);
    let free = m.free_clusters();
    write_all(&mut m, &t, 0, b"abc");
    let again = fat32::vfs::open(&root, b"dir1/log.txt", true, false, false, &mut m).expect("recreate");
    assert_eq!(again.stat(&mut m).size, 0);
    assert_eq!(m.free_clusters(), free);
    assert!(fat32::vfs::open(&root, b"nowhere/x", false, false, false, &mut m).is_none());
}

#[test]
fn dirent_info_walks_entries() {
    let mut m = mount();
    let a = new_file(&mut m, "a.txt");
    write_all(&mut m, &a, 0, b"12");
    new_file(&mut m, "b.txt");
    let root = VFile::root();
    let (n1, c1, next1, attr1) = root.dirent_info(0, &mut m).expect("first");
    assert_eq!(n1, b"a.txt".to_vec());
    assert_eq!(c1, a.stat(&mut m).first_cluster);
    assert_eq!(attr1, 0x20);
    assert_eq!(next1, 64);
    let (n2, c2, next2, _) = root.dirent_info(next1, &mut m).expect("second");
    assert_eq!(n2, b"b.txt".to_vec());
    assert_eq!(c2, 0);
    assert_eq!(next2, 128);
    assert!(root.dirent_info(next2, &mut m).is_none());
}

#[test]
fn remove_root_is_refused() {
    let mut m = mount();
    assert_eq!(VFile::root().remove(&mut m), Err(FsError::InvalidName));
}
