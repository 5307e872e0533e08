use exhume_exfat::bpb::BootSector;
use exhume_exfat::fat::{is_eoc, ChainEnd, Fat};
use exhume_exfat::source::{ByteSource, MemoryImage};

const FAT_START: usize = 8 * 512;

fn put16(buf: &mut [u8], off: usize, v: u16) {
    buf[off..off + 2].copy_from_slice(&v.to_le_bytes());
}

fn put32(buf: &mut [u8], off: usize, v: u32) {
    buf[off..off + 4].copy_from_slice(&v.to_le_bytes());
}

fn put64(buf: &mut [u8], off: usize, v: u64) {
    buf[off..off + 8].copy_from_slice(&v.to_le_bytes());
}

/// A volume of 16 sectors: a boot sector and a table of 1024 entries.
fn table_volume() -> Vec<u8> {
    let mut img = vec![0u8; 16 * 512];
    img[3..11].copy_from_slice(b"EXFAT   ");
    put64(&mut img, 0x48, 528);
    put32(&mut img, 0x50, 8);
    put32(&mut img, 0x54, 8);
    put32(&mut img, 0x58, 16);
    put32(&mut img, 0x5C, 64);
    put32(&mut img, 0x60, 4);
    put16(&mut img, 0x68, 0x0100);
    img[0x6C] = 9;
    img[0x6D] = 3;
    img[0x6E] = 1;
    img[510] = 0x55;
    img[511] = 0xAA;
    img
}

fn set_fat(img: &mut [u8], cluster: u32, value: u32) {
    put32(img, FAT_START + 4 * cluster as usize, value);
}

fn walk(img: Vec<u8>, first: u32, max: usize) -> std::io::Result<Vec<u32>> {
    let bs = BootSector::from_bytes(&img[..512]).unwrap();
    let mut io = MemoryImage::new(img);
    let mut fat = Fat::new(&bs, &mut io);
    fat.walk_chain(first, max)
}

#[test]
fn end_of_chain_marks() {
    assert!(is_eoc(0xFFFF_FFF8));
    assert!(is_eoc(0xFFFF_FFFF));
    assert!(!is_eoc(0xFFFF_FFF7));
    assert!(!is_eoc(0));
    assert!(!is_eoc(2));
}

#[test]
fn read_entry_is_little_endian_and_uninterpreted() {
    let mut img = table_volume();
    set_fat(&mut img, 0, 0xFFFF_FFF8);
    set_fat(&mut img, 5, 0x0403_0201);
    set_fat(&mut img, 1023, 7);
    let bs = BootSector::from_bytes(&img[..512]).unwrap();
    let mut io = MemoryImage::new(img);
    let mut fat = Fat::new(&bs, &mut io);
    assert_eq!(fat.read_entry(0).unwrap(), 0xFFFF_FFF8);
    assert_eq!(fat.read_entry(5).unwrap(), 0x0403_0201);
    assert_eq!(fat.read_entry(6).unwrap(), 0);
    assert_eq!(fat.read_entry(1023).unwrap(), 7);
    let err = fat.read_entry(1024).unwrap_err();
    assert_eq!(err.kind(), std::io::ErrorKind::UnexpectedEof);
    assert!(fat.read_entry(0xFFFF_FFFF).is_err());
}

#[test]
fn walk_follows_a_chain_to_its_end() {
    let mut img = table_volume();
    set_fat(&mut img, 5, 9);
    set_fat(&mut img, 9, 6);
    set_fat(&mut img, 6, 0xFFFF_FFFF);
    assert_eq!(walk(img, 5, 1000).unwrap(), vec![5, 9, 6]);
}

#[test]
fn walk_tolerates_a_cycle() {
    let mut img = table_volume();
    set_fat(&mut img, 10, 11);
    set_fat(&mut img, 11, 10);
    assert_eq!(walk(img, 10, 1000).unwrap(), vec![10, 11]);
}

#[test]
fn walk_tolerates_a_longer_cycle() {
    let mut img = table_volume();
    set_fat(&mut img, 20, 21);
    set_fat(&mut img, 21, 22);
    set_fat(&mut img, 22, 23);
    set_fat(&mut img, 23, 21);
    let chain = walk(img, 20, 1000).unwrap();
    assert_eq!(chain, vec![20, 21, 22, 23]);
}

#[test]
fn walk_includes_a_self_loop_once() {
    let mut img = table_volume();
    set_fat(&mut img, 7, 8);
    set_fat(&mut img, 8, 8);
    assert_eq!(walk(img, 7, 1000).unwrap(), vec![7, 8]);
}

#[test]
fn walk_from_below_first_cluster_is_empty() {
    let mut img = table_volume();
    set_fat(&mut img, 0, 5);
    set_fat(&mut img, 1, 5);
    assert_eq!(walk(img.clone(), 0, 1000).unwrap(), Vec::<u32>::new());
    assert_eq!(walk(img, 1, 1000).unwrap(), Vec::<u32>::new());
}

#[test]
fn walk_stops_at_free_and_reserved_pointers() {
    let mut img = table_volume();
    set_fat(&mut img, 5, 6);
    set_fat(&mut img, 6, 0);
    assert_eq!(walk(img.clone(), 5, 1000).unwrap(), vec![5, 6]);
    set_fat(&mut img, 6, 1);
    assert_eq!(walk(img.clone(), 5, 1000).unwrap(), vec![5, 6]);
    set_fat(&mut img, 6, 0xFFFF_FFF7);
    assert_eq!(walk(img.clone(), 5, 1000).unwrap(), vec![5, 6]);
    set_fat(&mut img, 6, 0xFFFF_FFF0);
    assert_eq!(walk(img.clone(), 5, 1000).unwrap(), vec![5, 6]);
    assert_eq!(walk(img, 0xFFFF_FFF0, 1000).unwrap(), Vec::<u32>::new());
}

#[test]
fn walk_is_bounded_by_max() {
    let mut img = table_volume();
    for c in 2..100u32 {
        set_fat(&mut img, c, c + 1);
    }
    set_fat(&mut img, 100, 0xFFFF_FFFF);
    assert_eq!(walk(img.clone(), 2, 0).unwrap(), Vec::<u32>::new());
    assert_eq!(walk(img.clone(), 2, 1).unwrap(), vec![2]);
    assert_eq!(walk(img.clone(), 2, 5).unwrap(), vec![2, 3, 4, 5, 6]);
    let all = walk(img, 2, 1000).unwrap();
    assert_eq!(all.len(), 99);
    assert_eq!(all[98], 100);
}

#[test]
fn walk_never_repeats_a_cluster() {
    let mut img = table_volume();
    for c in 2..1024u32 {
        set_fat(&mut img, c, 2 + (c * 7 + 3) % 1022);
    }
    for first in [2u32, 3, 50, 700, 1023] {
        for max in [0usize, 1, 10, 5000] {
            let chain = walk(img.clone(), first, max).unwrap();
            assert!(chain.len() <= max);
            let mut sorted = chain.clone();
            sorted.sort();
            sorted.dedup();
            assert_eq!(sorted.len(), chain.len());
            assert!(chain.iter().all(|c| *c >= 2 && *c < 0xFFFF_FFF0));
        }
    }
}

#[test]
fn walk_fails_where_the_table_ends() {
    let mut img = table_volume();
    set_fat(&mut img, 5, 2000);
    let err = walk(img, 5, 1000).unwrap_err();
    assert_eq!(err.kind(), std::io::ErrorKind::UnexpectedEof);
}

#[test]
fn memory_image_reads_exact_ranges() {
    let mut io = MemoryImage::new(vec![10, 11, 12, 13, 14]);
    assert_eq!(io.read_at(0, 5).unwrap(), vec![10, 11, 12, 13, 14]);
    assert_eq!(io.read_at(1, 3).unwrap(), vec![11, 12, 13]);
    assert_eq!(io.read_at(5, 0).unwrap(), Vec::<u8>::new());
    assert_eq!(io.read_at(3, 3).unwrap_err().kind(), std::io::ErrorKind::UnexpectedEof);
    assert!(io.read_at(6, 0).is_err());
    assert!(io.read_at(u64::MAX, 1).is_err());
    assert!(io.read_at(0, usize::MAX).is_err());
    assert_eq!(io.bytes, vec![10, 11, 12, 13, 14]);
}

fn walk_end(img: Vec<u8>, first: u32, max: usize) -> (Vec<u32>, ChainEnd) {
    let bs = BootSector::from_bytes(&img[..512]).unwrap();
    let mut io = MemoryImage::new(img);
    let mut fat = Fat::new(&bs, &mut io);
    fat.walk_chain_with_end(first, max).unwrap()
}

#[test]
fn walk_tells_why_it_stopped() {
    let mut img = table_volume();
    set_fat(&mut img, 10, 11);
    set_fat(&mut img, 11, 10);
    set_fat(&mut img, 7, 8);
    set_fat(&mut img, 8, 8);
    set_fat(&mut img, 5, 6);
    set_fat(&mut img, 6, 0xFFFF_FFFF);
    set_fat(&mut img, 20, 21);
    set_fat(&mut img, 21, 0);
    set_fat(&mut img, 30, 1);
    set_fat(&mut img, 31, 0xFFFF_FFF7);
    assert_eq!(walk_end(img.clone(), 10, 1000), (vec![10, 11], ChainEnd::Cycle(10)));
    assert_eq!(walk_end(img.clone(), 7, 1000), (vec![7, 8], ChainEnd::SelfLoop(8)));
    assert_eq!(walk_end(img.clone(), 5, 1000), (vec![5, 6], ChainEnd::EndMark));
    assert_eq!(walk_end(img.clone(), 20, 1000), (vec![20, 21], ChainEnd::Free(21)));
    assert_eq!(walk_end(img.clone(), 30, 1000), (vec![30], ChainEnd::NoCluster));
    assert_eq!(walk_end(img.clone(), 31, 1000), (vec![31], ChainEnd::NoCluster));
    assert_eq!(walk_end(img.clone(), 0, 1000), (vec![], ChainEnd::InvalidStart));
    assert_eq!(walk_end(img.clone(), 1, 0), (vec![], ChainEnd::InvalidStart));
    assert_eq!(walk_end(img.clone(), 0xFFFF_FFF0, 1000), (vec![], ChainEnd::NoCluster));
    assert_eq!(walk_end(img.clone(), 5, 0), (vec![], ChainEnd::Limit));
    assert_eq!(walk_end(img.clone(), 5, 1), (vec![5], ChainEnd::Limit));
    assert_eq!(walk_end(img, 10, 2), (vec![10, 11], ChainEnd::Limit));
}

struct NoReads;

impl ByteSource for NoReads {
    fn read_at(&mut self, _offset: u64, _len: usize) -> Result<Vec<u8>, std::io::Error> {
        Err(std::io::Error::new(std::io::ErrorKind::Other, "no reads"))
    }
}

#[test]
fn walk_that_needs_no_entry_reads_nothing() {
    let bs = BootSector::from_bytes(&table_volume()[..512]).unwrap();
    let mut io = NoReads;
    let mut fat = Fat::new(&bs, &mut io);
    assert_eq!(fat.walk_chain(0, 1000).unwrap(), Vec::<u32>::new());
    assert_eq!(fat.walk_chain(1, 1000).unwrap(), Vec::<u32>::new());
    assert_eq!(fat.walk_chain(0xFFFF_FFF0, 1000).unwrap(), Vec::<u32>::new());
    assert_eq!(fat.walk_chain(5, 0).unwrap(), Vec::<u32>::new());
    assert!(fat.walk_chain(5, 1).is_err());
}
