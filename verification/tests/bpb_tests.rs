use exhume_exfat::bpb::{is_exfat_oem, pow2_u64, BootSector};
use prettytable::{Cell, Row, Table};

fn put16(buf: &mut [u8], off: usize, v: u16) {
    buf[off..off + 2].copy_from_slice(&v.to_le_bytes());
}

fn put32(buf: &mut [u8], off: usize, v: u32) {
    buf[off..off + 4].copy_from_slice(&v.to_le_bytes());
}

fn put64(buf: &mut [u8], off: usize, v: u64) {
    buf[off..off + 8].copy_from_slice(&v.to_le_bytes());
}

fn sector() -> Vec<u8> {
    let mut b = vec![0u8; 512];
    b[3..11].copy_from_slice(b"EXFAT   ");
    put64(&mut b, 0x40, 2048);
    put64(&mut b, 0x48, 528);
    put32(&mut b, 0x50, 8);
    put32(&mut b, 0x54, 8);
    put32(&mut b, 0x58, 16);
    put32(&mut b, 0x5C, 64);
    put32(&mut b, 0x60, 4);
    put32(&mut b, 0x64, 0xCAFE_F00D);
    put16(&mut b, 0x68, 0x0100);
    put16(&mut b, 0x6A, 0x0002);
    b[0x6C] = 9;
    b[0x6D] = 3;
    b[0x6E] = 1;
    b[0x6F] = 0x80;
    b[510] = 0x55;
    b[511] = 0xAA;
    b
}

fn rejected(b: &[u8]) -> String {
    match BootSector::from_bytes(b) {
        Ok(_) => panic!("sector was accepted"),
        Err(m) => m,
    }
}

#[test]
fn from_bytes_decodes_every_field() {
    let bs = BootSector::from_bytes(&sector()).unwrap();
    assert_eq!(&bs.oem_name, b"EXFAT   ");
    assert_eq!(bs.partition_offset, 2048);
    assert_eq!(bs.volume_length, 528);
    assert_eq!(bs.fat_offset, 8);
    assert_eq!(bs.fat_length, 8);
    assert_eq!(bs.cluster_heap_offset, 16);
    assert_eq!(bs.cluster_count, 64);
    assert_eq!(bs.root_dir_first_cluster, 4);
    assert_eq!(bs.volume_serial, 0xCAFE_F00D);
    assert_eq!(bs.fs_revision, 0x0100);
    assert_eq!(bs.volume_flags, 0x0002);
    assert_eq!(bs.bytes_per_sector_shift, 9);
    assert_eq!(bs.sectors_per_cluster_shift, 3);
    assert_eq!(bs.num_fats, 1);
    assert_eq!(bs.drive_select, 0x80);
}

#[test]
fn from_bytes_reads_only_the_first_sector() {
    let mut b = sector();
    b.extend_from_slice(&[0xFFu8; 700]);
    let bs = BootSector::from_bytes(&b).unwrap();
    assert_eq!(bs.cluster_count, 64);
}

#[test]
fn from_bytes_rejects_short_input() {
    assert_eq!(rejected(&[0u8; 100]), "Boot sector too short: 100 < 512 bytes");
    assert_eq!(rejected(&[]), "Boot sector too short: 0 < 512 bytes");
    assert_eq!(rejected(&sector()[..511]), "Boot sector too short: 511 < 512 bytes");
}

#[test]
fn from_bytes_rejects_missing_signature() {
    let mut b = sector();
    b[510] = 0xAA;
    b[511] = 0x55;
    assert_eq!(rejected(&b), "Invalid boot signature (0x55AA missing)");
}

#[test]
fn from_bytes_rejects_other_oem_name() {
    let mut b = sector();
    b[3..11].copy_from_slice(b"MSDOS5.0");
    assert_eq!(rejected(&b), "OEM name isn't EXFAT: \"MSDOS5.0\"");
    b[3..11].copy_from_slice(&[b'N', b'T', 0xFF, b'"', b' ', b' ', b' ', b' ']);
    assert_eq!(rejected(&b), "OEM name isn't EXFAT: \"NT\u{FFFD}\\\"    \"");
}

#[test]
fn from_bytes_rejects_other_revision() {
    let mut b = sector();
    put16(&mut b, 0x68, 0x0200);
    assert_eq!(rejected(&b), "Unexpected exFAT fs_revision=0x0200");
    put16(&mut b, 0x68, 0x0ABC);
    assert_eq!(rejected(&b), "Unexpected exFAT fs_revision=0x0ABC");
}

#[test]
fn from_bytes_rejects_two_fats() {
    let mut b = sector();
    b[0x6E] = 2;
    assert_eq!(rejected(&b), "num_fats=2 (exFAT requires 1)");
}

#[test]
fn from_bytes_rejects_zero_volume_length() {
    let mut b = sector();
    put64(&mut b, 0x48, 0);
    assert_eq!(rejected(&b), "volume_length is zero");
}

#[test]
fn from_bytes_rejects_zero_fat_place() {
    let mut b = sector();
    put32(&mut b, 0x50, 0);
    assert_eq!(rejected(&b), "Invalid FAT location/length: offset=0, length=8");
    let mut b = sector();
    put32(&mut b, 0x54, 0);
    assert_eq!(rejected(&b), "Invalid FAT location/length: offset=8, length=0");
}

#[test]
fn from_bytes_rejects_bad_cluster_heap() {
    let mut b = sector();
    put32(&mut b, 0x58, 0);
    assert_eq!(rejected(&b), "Invalid cluster heap: offset=0, count=64");
    let mut b = sector();
    put32(&mut b, 0x5C, 1);
    assert_eq!(rejected(&b), "Invalid cluster heap: offset=16, count=1");
}

#[test]
fn from_bytes_rejects_root_below_two() {
    let mut b = sector();
    put32(&mut b, 0x60, 1);
    assert_eq!(rejected(&b), "Invalid root_dir_first_cluster: 1 (<2)");
}

#[test]
fn from_bytes_rejects_sector_shift_out_of_range() {
    let mut b = sector();
    b[0x6C] = 8;
    assert_eq!(rejected(&b), "bytes_per_sector_shift=8 not in [9..12]");
    b[0x6C] = 13;
    assert_eq!(rejected(&b), "bytes_per_sector_shift=13 not in [9..12]");
}

#[test]
fn from_bytes_rejects_cluster_shift_too_large() {
    let mut b = sector();
    b[0x6D] = 26;
    assert_eq!(rejected(&b), "sectors_per_cluster_shift=26 too large");
    b[0x6D] = 255;
    assert_eq!(rejected(&b), "sectors_per_cluster_shift=255 too large");
}

#[test]
fn from_bytes_rejects_cluster_size_out_of_range() {
    let mut b = sector();
    b[0x6D] = 2;
    assert_eq!(rejected(&b), "bytes_per_cluster=2048 outside [4KiB..32MiB]");
    b[0x6C] = 12;
    b[0x6D] = 14;
    assert_eq!(rejected(&b), "bytes_per_cluster=67108864 outside [4KiB..32MiB]");
    b[0x6D] = 13;
    assert!(BootSector::from_bytes(&b).is_ok());
}

#[test]
fn from_bytes_rejects_fat_over_heap() {
    let mut b = sector();
    put32(&mut b, 0x54, 9);
    assert_eq!(rejected(&b), "FAT overlaps cluster heap: FAT end=17 >= heap offset=16");
    put32(&mut b, 0x50, 0xFFFF_FFFF);
    put32(&mut b, 0x54, 0xFFFF_FFFF);
    assert_eq!(
        rejected(&b),
        "FAT overlaps cluster heap: FAT end=8589934590 >= heap offset=16"
    );
}

#[test]
fn from_bytes_rejects_root_past_last_cluster() {
    let mut b = sector();
    put32(&mut b, 0x60, 66);
    assert_eq!(rejected(&b), "root_dir_first_cluster=66 out of range [2..65]");
    put32(&mut b, 0x60, 65);
    assert!(BootSector::from_bytes(&b).is_ok());
}

#[test]
fn from_bytes_reports_the_first_broken_rule() {
    let mut b = sector();
    b[3..11].copy_from_slice(b"NTFS    ");
    put16(&mut b, 0x68, 0x0200);
    b[0x6E] = 2;
    assert_eq!(rejected(&b), "OEM name isn't EXFAT: \"NTFS    \"");
    b[510] = 0;
    assert_eq!(rejected(&b), "Invalid boot signature (0x55AA missing)");
}

#[test]
fn geometry_of_a_small_volume() {
    let bs = BootSector::from_bytes(&sector()).unwrap();
    assert_eq!(bs.bytes_per_sector(), 512);
    assert_eq!(bs.sectors_per_cluster(), 8);
    assert_eq!(bs.bytes_per_cluster(), 4096);
    assert_eq!(bs.fat_start_byte(), 8 * 512);
    assert_eq!(bs.cluster_heap_start_byte(), 16 * 512);
    assert_eq!(bs.cluster_to_byte_offset(2), 16 * 512);
    assert_eq!(bs.cluster_to_byte_offset(3), 16 * 512 + 4096);
    assert_eq!(bs.cluster_to_byte_offset(65), 16 * 512 + 63 * 4096);
}

#[test]
fn cluster_offsets_step_by_cluster_size() {
    let mut b = sector();
    b[0x6C] = 12;
    b[0x6D] = 13;
    put32(&mut b, 0x58, 0xFFFF_FFFF);
    put32(&mut b, 0x5C, 0xFFFF_FFF0);
    let bs = BootSector::from_bytes(&b).unwrap();
    assert_eq!(bs.bytes_per_cluster(), 32 * 1024 * 1024);
    assert_eq!(bs.cluster_to_byte_offset(2), 0xFFFF_FFFFu64 * 4096);
    assert_eq!(bs.cluster_to_byte_offset(2), bs.cluster_heap_start_byte());
    for c in [2u32, 3, 1000, 0xFFFF_FFFE] {
        assert_eq!(
            bs.cluster_to_byte_offset(c + 1) - bs.cluster_to_byte_offset(c),
            bs.bytes_per_cluster()
        );
    }
    assert_eq!(
        bs.cluster_to_byte_offset(0xFFFF_FFFF),
        0xFFFF_FFFFu64 * 4096 + 0xFFFF_FFFDu64 * 32 * 1024 * 1024
    );
}

#[test]
fn pow2_and_oem_helpers() {
    assert_eq!(pow2_u64(0), 1);
    assert_eq!(pow2_u64(9), 512);
    assert_eq!(pow2_u64(63), 1u64 << 63);
    assert!(is_exfat_oem(b"EXFAT   "));
    assert!(!is_exfat_oem(b"EXFAT  \0"));
    assert!(!is_exfat_oem(b"exfat   "));
}

#[test]
fn boot_sector_summary_table() {
    let bs = BootSector::from_bytes(&sector()).unwrap();
    let text = bs.to_string();
    let mut t = Table::new();
    for (label, value) in [
        ("Bytes/sector", "512"),
        ("Sectors/cluster", "8"),
        ("Clusters", "64"),
        ("FAT offset (sectors)", "8"),
        ("FAT length (sectors)", "8"),
        ("Cluster heap offset (sectors)", "16"),
        ("Root dir first cluster", "4"),
        ("Volume flags", "0x0002"),
    ] {
        t.add_row(Row::new(vec![Cell::new(label), Cell::new(value)]));
    }
    assert_eq!(text, t.to_string());
    let lines: Vec<&str> = text.lines().collect();
    assert_eq!(lines.len(), 17);
    assert_eq!(lines[0], "+-------------------------------+--------+");
    assert_eq!(lines[1], "| Bytes/sector                  | 512    |");
    assert_eq!(lines[15], "| Volume flags                  | 0x0002 |");
}
