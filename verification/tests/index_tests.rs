use exhume_exfat::exinode::ExInode;
use exhume_exfat::fs::{entry_sets, ExFatFS, FsError};
use exhume_exfat::direntry::RawDirEnt;
use exhume_exfat::source::MemoryImage;

const SECTOR: usize = 512;
const CLUSTER: usize = 4096;
const FAT_SECTOR: usize = 8;
const HEAP_SECTOR: usize = 16;
const CLUSTERS: usize = 64;
const ROOT: u32 = 4;
const EOC: u32 = 0xFFFF_FFFF;

fn put16(buf: &mut [u8], off: usize, v: u16) {
    buf[off..off + 2].copy_from_slice(&v.to_le_bytes());
}

fn put32(buf: &mut [u8], off: usize, v: u32) {
    buf[off..off + 4].copy_from_slice(&v.to_le_bytes());
}

fn put64(buf: &mut [u8], off: usize, v: u64) {
    buf[off..off + 8].copy_from_slice(&v.to_le_bytes());
}

fn blank_volume() -> Vec<u8> {
    let mut img = vec![0u8; HEAP_SECTOR * SECTOR + CLUSTERS * CLUSTER];
    img[3..11].copy_from_slice(b"EXFAT   ");
    put64(&mut img, 0x48, (HEAP_SECTOR + CLUSTERS * 8) as u64);
    put32(&mut img, 0x50, FAT_SECTOR as u32);
    put32(&mut img, 0x54, 8);
    put32(&mut img, 0x58, HEAP_SECTOR as u32);
    put32(&mut img, 0x5C, CLUSTERS as u32);
    put32(&mut img, 0x60, ROOT);
    put16(&mut img, 0x68, 0x0100);
    img[0x6C] = 9;
    img[0x6D] = 3;
    img[0x6E] = 1;
    img[510] = 0x55;
    img[511] = 0xAA;
    img
}

fn cluster_offset(c: u32) -> usize {
    HEAP_SECTOR * SECTOR + (c as usize - 2) * CLUSTER
}

fn set_fat(img: &mut [u8], cluster: u32, value: u32) {
    put32(img, FAT_SECTOR * SECTOR + 4 * cluster as usize, value);
}

fn record(kind: u8) -> [u8; 32] {
    let mut r = [0u8; 32];
    r[0] = kind;
    r
}

fn put_record(img: &mut [u8], cluster: u32, index: usize, rec: &[u8; 32]) {
    let off = cluster_offset(cluster) + 32 * index;
    img[off..off + 32].copy_from_slice(rec);
}

fn add_entry(
    img: &mut [u8],
    dir: u32,
    index: usize,
    name: &str,
    attributes: u16,
    first_cluster: u32,
    size: u64,
) -> usize {
    let mut file = record(0x85);
    file[1] = 2;
    put16(&mut file, 4, attributes);
    let mut stream = record(0xC0);
    put32(&mut stream, 20, first_cluster);
    put64(&mut stream, 24, size);
    let mut piece = record(0xC1);
    for (i, u) in name.encode_utf16().enumerate() {
        put16(&mut piece, 2 + 2 * i, u);
    }
    put_record(img, dir, index, &file);
    put_record(img, dir, index + 1, &stream);
    put_record(img, dir, index + 2, &piece);
    index + 3
}

fn ino(dir: u32, position: u64) -> u64 {
    ((dir as u64) << 32) | position
}

/// Root: zeta.txt, DOCS (directory at 7), alpha.txt; DOCS: b.txt, SUB
/// (directory at 8), a.txt, B.TXT; SUB: deep.bin.
fn library_volume() -> Vec<u8> {
    let mut img = blank_volume();
    for c in [ROOT, 7, 8, 20, 21, 22, 23, 24, 25] {
        set_fat(&mut img, c, EOC);
    }
    let mut i = add_entry(&mut img, ROOT, 0, "zeta.txt", 0x20, 20, 4);
    i = add_entry(&mut img, ROOT, i, "DOCS", 0x10, 7, 0);
    add_entry(&mut img, ROOT, i, "alpha.txt", 0x20, 21, 5);
    let mut j = add_entry(&mut img, 7, 0, "b.txt", 0x20, 22, 1);
    j = add_entry(&mut img, 7, j, "SUB", 0x10, 8, 0);
    j = add_entry(&mut img, 7, j, "a.txt", 0x20, 23, 2);
    add_entry(&mut img, 7, j, "B.TXT", 0x20, 24, 3);
    add_entry(&mut img, 8, 0, "deep.bin", 0x20, 25, 6);
    for (c, text) in [
        (20u32, &b"zeta"[..]),
        (21, &b"alpha"[..]),
        (22, &b"b"[..]),
        (23, &b"a2"[..]),
        (24, &b"B33"[..]),
        (25, &b"deep66"[..]),
    ] {
        let off = cluster_offset(c);
        img[off..off + text.len()].copy_from_slice(text);
    }
    img
}

fn open(img: Vec<u8>) -> ExFatFS<MemoryImage> {
    ExFatFS::new(MemoryImage::new(img)).expect("volume opens")
}

#[test]
fn index_holds_every_reachable_entry() {
    let mut fs = open(library_volume());
    fs.ensure_index().unwrap();
    fs.ensure_index().unwrap();
    assert_eq!(
        fs.inode_numbers(),
        vec![
            ino(4, 0),
            ino(4, 3),
            ino(4, 6),
            ino(7, 0),
            ino(7, 3),
            ino(7, 6),
            ino(7, 9),
            ino(8, 0)
        ]
    );
    for (id, name, dir) in [
        (ino(4, 0), "zeta.txt", false),
        (ino(4, 3), "DOCS", true),
        (ino(4, 6), "alpha.txt", false),
        (ino(7, 0), "b.txt", false),
        (ino(7, 3), "SUB", true),
        (ino(7, 6), "a.txt", false),
        (ino(7, 9), "B.TXT", false),
        (ino(8, 0), "deep.bin", false),
    ] {
        let inode = fs.get_inode(id).unwrap();
        assert_eq!(inode.i_num, id);
        assert_eq!(inode.name, name);
        assert_eq!(inode.is_dir(), dir);
    }
    assert!(fs.get_inode(ino(4, 1)).is_err());
    assert!(fs.get_inode(ino(9, 0)).is_err());
}

#[test]
fn missing_inode_is_not_found() {
    let mut fs = open(library_volume());
    match fs.get_inode(12345) {
        Err(FsError::NotFound(m)) => assert_eq!(m, "inode 12345"),
        _ => panic!("expected NotFound"),
    }
    match fs.get_inode(0) {
        Err(FsError::NotFound(m)) => assert_eq!(m, "inode 0"),
        _ => panic!("expected NotFound"),
    }
}

#[test]
fn identifiers_agree_between_listing_and_index() {
    let mut fs = open(library_volume());
    for dir in [4u32, 7, 8] {
        let listed = fs.list_dir_with_inodes(dir).unwrap();
        assert!(!listed.is_empty());
        for (id, fr) in listed {
            let inode = fs.get_inode(id).unwrap();
            assert_eq!(inode.i_num, id);
            assert_eq!(inode.name, fr.name);
            assert_eq!(inode.first_cluster, fr.first_cluster);
            assert_eq!(inode.size, fr.size);
            assert_eq!(inode.attributes, fr.attributes);
            assert_eq!(id >> 32, dir as u64);
        }
    }
}

#[test]
fn identifiers_are_the_same_on_every_run() {
    let mut first = open(library_volume());
    let mut second = open(library_volume());
    let a = first.list_dir_with_inodes(7).unwrap();
    let b = second.list_dir_with_inodes(7).unwrap();
    let ids_a: Vec<u64> = a.iter().map(|e| e.0).collect();
    let ids_b: Vec<u64> = b.iter().map(|e| e.0).collect();
    assert_eq!(ids_a, ids_b);
    assert_eq!(ids_a, vec![ino(7, 0), ino(7, 3), ino(7, 6), ino(7, 9)]);
    let ra = first.resolve_path_to_inode_num("/docs/sub/deep.bin").unwrap();
    let rb = second.resolve_path_to_inode_num("/docs/sub/deep.bin").unwrap();
    assert_eq!(ra.0, rb.0);
}

#[test]
fn resolve_path_to_inode() {
    let mut fs = open(library_volume());
    let (id, inode) = fs.resolve_path_to_inode_num("/DOCS/SUB/deep.bin").unwrap();
    assert_eq!(id, ino(8, 0));
    assert_eq!(inode.i_num, id);
    assert_eq!(inode.name, "deep.bin");
    assert_eq!(inode.size, 6);
    let (id, inode) = fs.resolve_path_to_inode_num("docs").unwrap();
    assert_eq!(id, ino(4, 3));
    assert!(inode.is_dir());
    let (id, _) = fs.resolve_path_to_inode_num("/docs/B.TXT").unwrap();
    assert_eq!(id, ino(7, 0));
}

#[test]
fn resolve_path_failures() {
    let mut fs = open(library_volume());
    match fs.resolve_path_to_inode_num("/") {
        Err(FsError::NotFound(m)) => assert_eq!(m, "/"),
        _ => panic!("expected NotFound"),
    }
    match fs.resolve_path_to_inode_num("/DOCS/nothing/x") {
        Err(FsError::NotFound(m)) => assert_eq!(m, "nothing"),
        _ => panic!("expected NotFound"),
    }
    match fs.resolve_path_to_inode_num("/deep.bin") {
        Err(FsError::NotFound(m)) => assert_eq!(m, "deep.bin"),
        _ => panic!("expected NotFound"),
    }
}

#[test]
fn directory_listing_by_inode_is_sorted_by_name() {
    let mut fs = open(library_volume());
    let docs = fs.get_inode(ino(4, 3)).unwrap();
    let entries = fs.list_dir_inode(&docs).unwrap();
    let names: Vec<&str> = entries.iter().map(|e| e.name.as_str()).collect();
    assert_eq!(names, vec!["B.TXT", "SUB", "a.txt", "b.txt"]);
    let ids: Vec<u64> = entries.iter().map(|e| e.inode).collect();
    assert_eq!(ids, vec![ino(7, 9), ino(7, 3), ino(7, 6), ino(7, 0)]);
    let types: Vec<u8> = entries.iter().map(|e| e.file_type).collect();
    assert_eq!(types, vec![1, 2, 1, 1]);
    assert!(entries.iter().all(|e| e.rec_len == 32));
}

#[test]
fn directory_listing_keeps_order_of_equal_names() {
    let mut img = blank_volume();
    set_fat(&mut img, ROOT, EOC);
    let mut i = add_entry(&mut img, ROOT, 0, "same", 0x20, 20, 1);
    i = add_entry(&mut img, ROOT, i, "a", 0x20, 21, 1);
    i = add_entry(&mut img, ROOT, i, "same", 0x20, 22, 1);
    add_entry(&mut img, ROOT, i, "same", 0x10, 23, 1);
    let mut fs = open(img);
    let root = ExInode {
        i_num: 0,
        attributes: 0x10,
        first_cluster: ROOT,
        size: 0,
        name: String::new(),
    };
    let entries = fs.list_dir_inode(&root).unwrap();
    let ids: Vec<u64> = entries.iter().map(|e| e.inode).collect();
    assert_eq!(ids, vec![ino(4, 3), ino(4, 0), ino(4, 6), ino(4, 9)]);
}

#[test]
fn directory_listing_of_a_file_is_not_found() {
    let mut fs = open(library_volume());
    let file = fs.get_inode(ino(4, 0)).unwrap();
    match fs.list_dir_inode(&file) {
        Err(FsError::NotFound(m)) => assert_eq!(m, "not a directory"),
        _ => panic!("expected NotFound"),
    }
}

#[test]
fn read_inode_contents() {
    let mut fs = open(library_volume());
    let deep = fs.get_inode(ino(8, 0)).unwrap();
    assert_eq!(fs.read_inode(&deep).unwrap(), b"deep66".to_vec());
    let alpha = fs.get_inode(ino(4, 6)).unwrap();
    assert_eq!(fs.read_inode(&alpha).unwrap(), b"alpha".to_vec());
    let docs = fs.get_inode(ino(4, 3)).unwrap();
    match fs.read_inode(&docs) {
        Err(FsError::NotAFile(m)) => assert_eq!(m, "DOCS"),
        _ => panic!("expected NotAFile"),
    }
    let ghost = ExInode {
        i_num: 99,
        attributes: 0x20,
        first_cluster: 25,
        size: 6,
        name: "ghost".to_string(),
    };
    match fs.read_inode(&ghost) {
        Err(FsError::NotFound(m)) => assert_eq!(m, "inode 99"),
        _ => panic!("expected NotFound"),
    }
}

#[test]
fn traversal_ends_on_a_cyclic_directory_graph() {
    let mut img = blank_volume();
    set_fat(&mut img, ROOT, EOC);
    set_fat(&mut img, 7, EOC);
    add_entry(&mut img, ROOT, 0, "LOOP", 0x10, 7, 0);
    let mut j = add_entry(&mut img, 7, 0, "BACK", 0x10, ROOT, 0);
    j = add_entry(&mut img, 7, j, "SELF", 0x10, 7, 0);
    add_entry(&mut img, 7, j, "NONE", 0x10, 1, 0);
    let mut fs = open(img);
    fs.ensure_index().unwrap();
    assert_eq!(fs.inode_numbers(), vec![ino(4, 0), ino(7, 0), ino(7, 3), ino(7, 6)]);
    assert_eq!(fs.get_inode(ino(4, 0)).unwrap().name, "LOOP");
    assert_eq!(fs.get_inode(ino(7, 0)).unwrap().name, "BACK");
    assert_eq!(fs.get_inode(ino(7, 3)).unwrap().name, "SELF");
    assert_eq!(fs.get_inode(ino(7, 6)).unwrap().name, "NONE");
    let (id, _) = fs.resolve_path_to_inode_num("/loop/back/loop/self/none").unwrap();
    assert_eq!(id, ino(7, 6));
}

#[test]
fn index_fails_where_a_directory_cannot_be_read() {
    let mut img = blank_volume();
    set_fat(&mut img, ROOT, EOC);
    add_entry(&mut img, ROOT, 0, "FAR", 0x10, 1000, 0);
    let mut fs = open(img);
    assert!(matches!(fs.ensure_index(), Err(FsError::Io(_))));
    assert_eq!(fs.inode_numbers(), Vec::<u64>::new());
    assert!(matches!(fs.get_inode(ino(4, 0)), Err(FsError::Io(_))));
    assert_eq!(fs.list_dir(4).unwrap().len(), 1);
}

#[test]
fn entry_sets_give_positions() {
    let mut img = blank_volume();
    put_record(&mut img, ROOT, 0, &record(0x83));
    let next = add_entry(&mut img, ROOT, 1, "ONE", 0x20, 20, 1);
    let mut cut = record(0x85);
    cut[1] = 200;
    put_record(&mut img, ROOT, next, &cut);
    let off = cluster_offset(ROOT);
    let recs: Vec<RawDirEnt> = img[off..off + 5 * 32]
        .chunks(32)
        .map(RawDirEnt::from_bytes)
        .collect();
    let sets = entry_sets(&recs);
    assert_eq!(sets.len(), 1);
    assert_eq!(sets[0].0, 1);
    assert_eq!(sets[0].1.name, "ONE");
    assert_eq!(entry_sets(&[]).len(), 0);
}
