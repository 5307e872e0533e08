use exhume_exfat::direntry::{
    assemble_file, AllocationBitmapEntry, EntryType, FileDirectoryEntry, FileNameEntry,
    FileRecord, RawDirEnt, StreamExtensionEntry, UpcaseTableEntry, VolumeLabelEntry,
};

fn put16(buf: &mut [u8], off: usize, v: u16) {
    buf[off..off + 2].copy_from_slice(&v.to_le_bytes());
}

fn put32(buf: &mut [u8], off: usize, v: u32) {
    buf[off..off + 4].copy_from_slice(&v.to_le_bytes());
}

fn put64(buf: &mut [u8], off: usize, v: u64) {
    buf[off..off + 8].copy_from_slice(&v.to_le_bytes());
}

fn raw(bytes: [u8; 32]) -> RawDirEnt {
    RawDirEnt::from_bytes(&bytes)
}

fn file_entry(secondary: u8, attributes: u16) -> RawDirEnt {
    let mut r = [0u8; 32];
    r[0] = 0x85;
    r[1] = secondary;
    put16(&mut r, 2, 0xBEEF);
    put16(&mut r, 4, attributes);
    put32(&mut r, 8, 0x1111_2222);
    put32(&mut r, 12, 0x3333_4444);
    put32(&mut r, 16, 0x5555_6666);
    raw(r)
}

fn stream_entry(flags: u8, first_cluster: u32, size: u64) -> RawDirEnt {
    let mut r = [0u8; 32];
    r[0] = 0xC0;
    r[1] = flags;
    put32(&mut r, 20, first_cluster);
    put64(&mut r, 24, size);
    raw(r)
}

fn name_units(units: &[u16]) -> RawDirEnt {
    let mut r = [0u8; 32];
    r[0] = 0xC1;
    for (i, u) in units.iter().enumerate() {
        put16(&mut r, 2 + 2 * i, *u);
    }
    raw(r)
}

fn name_entry(piece: &str) -> RawDirEnt {
    let units: Vec<u16> = piece.encode_utf16().collect();
    name_units(&units)
}

fn label_entry(count: u8, units: &[u16]) -> RawDirEnt {
    let mut r = [0u8; 32];
    r[0] = 0x83;
    r[1] = count;
    for (i, u) in units.iter().enumerate() {
        put16(&mut r, 2 + 2 * i, *u);
    }
    raw(r)
}

#[test]
fn entry_type_from_type_byte() {
    assert_eq!(EntryType::from(0x00), EntryType::End);
    assert_eq!(EntryType::from(0x81), EntryType::AllocationBitmap);
    assert_eq!(EntryType::from(0x82), EntryType::UpCaseTable);
    assert_eq!(EntryType::from(0x83), EntryType::VolumeLabel);
    assert_eq!(EntryType::from(0x85), EntryType::File);
    assert_eq!(EntryType::from(0xC0), EntryType::StreamExt);
    assert_eq!(EntryType::from(0xC1), EntryType::FileName);
    assert_eq!(EntryType::from(0x05), EntryType::Unknown(0x05));
    assert_eq!(EntryType::from(0x84), EntryType::Unknown(0x84));
    assert_eq!(EntryType::from(0xFF), EntryType::Unknown(0xFF));
}

#[test]
fn raw_record_copies_first_32_bytes() {
    let mut bytes = vec![0u8; 40];
    for (i, b) in bytes.iter_mut().enumerate() {
        *b = 0x85u8.wrapping_add(i as u8);
    }
    let r = RawDirEnt::from_bytes(&bytes);
    assert_eq!(r.entry_type, 0x85);
    assert_eq!(&r.raw[..], &bytes[..32]);
    assert_eq!(r.kind(), EntryType::File);
    let other = RawDirEnt { entry_type: 0xC1, raw: [0u8; 32] };
    assert_eq!(other.kind(), EntryType::FileName);
}

#[test]
fn file_entry_fields() {
    let e = FileDirectoryEntry::parse(&file_entry(3, 0x0030));
    assert_eq!(e.secondary_count, 3);
    assert_eq!(e.set_checksum, 0xBEEF);
    assert_eq!(e.attributes, 0x0030);
    assert_eq!(e.create_time, 0x1111_2222);
    assert_eq!(e.last_mod_time, 0x3333_4444);
    assert_eq!(e.last_access_time, 0x5555_6666);
}

#[test]
fn stream_entry_fields() {
    let e = StreamExtensionEntry::parse(&stream_entry(0x03, 0x0A0B_0C0D, 0x0102_0304_0506_0708));
    assert_eq!(e.general_flags, 0x03);
    assert_eq!(e.first_cluster, 0x0A0B_0C0D);
    assert_eq!(e.data_length, 0x0102_0304_0506_0708);
}

#[test]
fn bitmap_and_upcase_entry_fields() {
    let mut r = [0u8; 32];
    r[0] = 0x81;
    put32(&mut r, 20, 2);
    put32(&mut r, 24, 0xDEAD_BEEF);
    let b = AllocationBitmapEntry::parse(&raw(r));
    assert_eq!(b.first_cluster, 2);
    assert_eq!(b.data_length, 0xDEAD_BEEF);
    r[0] = 0x82;
    put32(&mut r, 20, 3);
    put32(&mut r, 24, 5836);
    let u = UpcaseTableEntry::parse(&raw(r));
    assert_eq!(u.first_cluster, 3);
    assert_eq!(u.data_length, 5836);
}

#[test]
fn name_fragment_stops_at_nul() {
    assert_eq!(FileNameEntry::parse(&name_entry("HI.TXT")).name_fragment, "HI.TXT");
    assert_eq!(FileNameEntry::parse(&name_entry("")).name_fragment, "");
    let e = name_units(&[0x41, 0x42, 0, 0x43, 0x44]);
    assert_eq!(FileNameEntry::parse(&e).name_fragment, "AB");
}

#[test]
fn name_fragment_of_fifteen_units() {
    let e = name_entry("ABCDEFGHIJKLMNO");
    assert_eq!(FileNameEntry::parse(&e).name_fragment, "ABCDEFGHIJKLMNO");
}

#[test]
fn name_fragment_decodes_utf16() {
    assert_eq!(FileNameEntry::parse(&name_entry("é\u{4E2D}x")).name_fragment, "é\u{4E2D}x");
    let pair = name_units(&[0xD83D, 0xDE00, 0x21]);
    assert_eq!(FileNameEntry::parse(&pair).name_fragment, "\u{1F600}!");
    let lone = name_units(&[0x41, 0xD800, 0x42]);
    assert_eq!(FileNameEntry::parse(&lone).name_fragment, "A\u{FFFD}B");
    let low = name_units(&[0xDC00]);
    assert_eq!(FileNameEntry::parse(&low).name_fragment, "\u{FFFD}");
}

#[test]
fn volume_label_takes_count_characters() {
    let units: Vec<u16> = "MYVOLUME".encode_utf16().collect();
    assert_eq!(VolumeLabelEntry::parse(&label_entry(8, &units)).label, "MYVOLUME");
    assert_eq!(VolumeLabelEntry::parse(&label_entry(2, &units)).label, "MY");
    assert_eq!(VolumeLabelEntry::parse(&label_entry(0, &units)).label, "");
}

#[test]
fn volume_label_is_at_most_eleven_characters() {
    let units: Vec<u16> = "ABCDEFGHIJKLMNO".encode_utf16().collect();
    assert_eq!(VolumeLabelEntry::parse(&label_entry(11, &units)).label, "ABCDEFGHIJK");
    assert_eq!(VolumeLabelEntry::parse(&label_entry(200, &units)).label, "ABCDEFGHIJK");
}

#[test]
fn volume_label_replaces_surrogates_and_keeps_nul() {
    let e = label_entry(4, &[0x41, 0xD800, 0x0000, 0x20AC]);
    assert_eq!(VolumeLabelEntry::parse(&e).label, "A\u{FFFD}\u{0}\u{20AC}");
    let e = label_entry(2, &[0xDFFF, 0xE000]);
    assert_eq!(VolumeLabelEntry::parse(&e).label, "\u{FFFD}\u{E000}");
    let e = label_entry(2, &[0xD7FF, 0xFFFF]);
    assert_eq!(VolumeLabelEntry::parse(&e).label, "\u{D7FF}\u{FFFF}");
}

#[test]
fn file_record_directory_bit() {
    let mut fr = FileRecord { name: "D".to_string(), attributes: 0x0010, first_cluster: 7, size: 0 };
    assert!(fr.is_dir());
    fr.attributes = 0x0030;
    assert!(fr.is_dir());
    fr.attributes = 0x0020;
    assert!(!fr.is_dir());
    fr.attributes = 0xFFEF;
    assert!(!fr.is_dir());
    let copy = fr.clone();
    assert_eq!(copy.name, "D");
    assert_eq!(copy.attributes, 0xFFEF);
    assert_eq!(copy.first_cluster, 7);
}

#[test]
fn assemble_multi_fragment_name() {
    let set = vec![
        file_entry(3, 0x20),
        stream_entry(0, 5, 10),
        name_entry("ABCDEFGHIJKLMNO"),
        name_entry("PQR"),
    ];
    let fr = assemble_file(&set).unwrap();
    assert_eq!(fr.name, "ABCDEFGHIJKLMNOPQR");
    assert_eq!(fr.attributes, 0x20);
    assert_eq!(fr.first_cluster, 5);
    assert_eq!(fr.size, 10);
}

#[test]
fn assemble_takes_size_and_cluster_from_stream_entry() {
    for (cluster, size) in [(0u32, 0u64), (2, 1), (0xFFFF_FFFF, u64::MAX), (77, 4096)] {
        let stream = stream_entry(0x02, cluster, size);
        let decoded = StreamExtensionEntry::parse(&stream);
        let set = vec![file_entry(2, 0x10), stream, name_entry("N")];
        let fr = assemble_file(&set).unwrap();
        assert_eq!(fr.size, decoded.data_length);
        assert_eq!(fr.first_cluster, decoded.first_cluster);
        assert_eq!(fr.size, size);
        assert_eq!(fr.first_cluster, cluster);
    }
}

#[test]
fn assemble_needs_file_and_stream_entries() {
    assert!(assemble_file(&[]).is_none());
    assert!(assemble_file(&[file_entry(1, 0x20), name_entry("A")]).is_none());
    assert!(assemble_file(&[stream_entry(0, 5, 1), name_entry("A")]).is_none());
    assert!(assemble_file(&[name_entry("A")]).is_none());
    let fr = assemble_file(&[file_entry(1, 0x20), stream_entry(0, 5, 1)]).unwrap();
    assert_eq!(fr.name, "");
}

#[test]
fn assemble_passes_over_other_records_and_takes_the_last_of_a_kind() {
    let mut odd = [0u8; 32];
    odd[0] = 0x99;
    let set = vec![
        file_entry(5, 0x20),
        raw(odd),
        stream_entry(0, 5, 1),
        name_entry("A"),
        stream_entry(0, 6, 2),
        file_entry(0, 0x10),
        name_entry("B"),
    ];
    let fr = assemble_file(&set).unwrap();
    assert_eq!(fr.name, "AB");
    assert_eq!(fr.first_cluster, 6);
    assert_eq!(fr.size, 2);
    assert_eq!(fr.attributes, 0x10);
}
