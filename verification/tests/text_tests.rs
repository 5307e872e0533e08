use exhume_exfat::compat::{comes_before, CompatDirEntry};
use exhume_exfat::order::name_order;
use std::cmp::Ordering;
use exhume_exfat::direntry::FileRecord;
use exhume_exfat::exinode::ExInode;
use exhume_exfat::le::{read_le16, read_le32, read_le64};
use exhume_exfat::path::split_path;
use exhume_exfat::table::is_plain_text;
use exhume_exfat::text::{dec_string, digit_str, hex4_string, hex_string, join3, join5};
use prettytable::{Cell, Row, Table};

#[test]
fn little_endian_reads() {
    let b = [0x01u8, 0x02, 0x03, 0x04, 0x05, 0x06, 0x07, 0x08, 0xFF, 0xFF];
    assert_eq!(read_le16(&b, 0), 0x0201);
    assert_eq!(read_le16(&b, 8), 0xFFFF);
    assert_eq!(read_le32(&b, 0), 0x0403_0201);
    assert_eq!(read_le32(&b, 6), 0xFFFF_0807);
    assert_eq!(read_le64(&b, 0), 0x0807_0605_0403_0201);
    assert_eq!(read_le64(&b, 2), 0xFFFF_0807_0605_0403);
}

#[test]
fn decimal_text() {
    assert_eq!(dec_string(0), "0");
    assert_eq!(dec_string(7), "7");
    assert_eq!(dec_string(10), "10");
    assert_eq!(dec_string(1_000_000), "1000000");
    assert_eq!(dec_string(u64::MAX), "18446744073709551615");
}

#[test]
fn hexadecimal_text() {
    assert_eq!(hex_string(0, false), "0");
    assert_eq!(hex_string(0xABC, false), "abc");
    assert_eq!(hex_string(0xABC, true), "ABC");
    assert_eq!(hex_string(16, false), "10");
    assert_eq!(hex_string(u64::MAX, false), "ffffffffffffffff");
    assert_eq!(hex4_string(0, true), "0000");
    assert_eq!(hex4_string(0x1A, true), "001A");
    assert_eq!(hex4_string(0x1A, false), "001a");
    assert_eq!(hex4_string(0xFFFF, false), "ffff");
    assert_eq!(hex4_string(0x0100, true), "0100");
}

#[test]
fn digits_and_joins() {
    assert_eq!(digit_str(0, false), "0");
    assert_eq!(digit_str(9, true), "9");
    assert_eq!(digit_str(10, false), "a");
    assert_eq!(digit_str(15, true), "F");
    assert_eq!(join3("a", "", "c"), "ac");
    assert_eq!(join5("1", "2", "3", "4", "5"), "12345");
}

#[test]
fn path_components() {
    assert_eq!(split_path("/D/X.BIN"), vec!["D", "X.BIN"]);
    assert_eq!(split_path("D/X.BIN"), vec!["D", "X.BIN"]);
    assert_eq!(split_path("//a///b/"), vec!["a", "b"]);
    assert_eq!(split_path("/"), Vec::<&str>::new());
    assert_eq!(split_path(""), Vec::<&str>::new());
    assert_eq!(split_path("///"), Vec::<&str>::new());
    assert_eq!(split_path("é/\u{1F600}x"), vec!["é", "\u{1F600}x"]);
    assert_eq!(split_path("one"), vec!["one"]);
}

#[test]
fn compat_entry_from_name_and_inode() {
    let d = CompatDirEntry::from_name_inode("docs", 0x4_0000_0003, true);
    assert_eq!(d.inode, 0x4_0000_0003);
    assert_eq!(d.rec_len, 32);
    assert_eq!(d.file_type, 2);
    assert_eq!(d.name, "docs");
    let f = CompatDirEntry::from_name_inode("a.txt", 9, false);
    assert_eq!(f.file_type, 1);
    assert_eq!(f.rec_len, 32);
    let c = f.clone();
    assert_eq!(c.name, "a.txt");
    assert_eq!(c.inode, 9);
}

#[test]
fn compat_entry_as_text() {
    let d = CompatDirEntry::from_name_inode("docs", 17179869187, true);
    assert_eq!(d.to_string(), "17179869187 :  docs : 0x2");
    let f = CompatDirEntry::from_name_inode("", 9, false);
    assert_eq!(f.to_string(), "9 :  ? : 0x1");
    let odd = CompatDirEntry { inode: 0, rec_len: 32, file_type: 0xAB, name: "x".to_string() };
    assert_eq!(odd.to_string(), "0 :  x : 0xab");
}

#[test]
fn inode_from_record() {
    let fr = FileRecord { name: "X.BIN".to_string(), attributes: 0x20, first_cluster: 9, size: 3 };
    let ino = ExInode::from_record((7u64 << 32) | 0, &fr);
    assert_eq!(ino.i_num, 7u64 << 32);
    assert_eq!(ino.attributes, 0x20);
    assert_eq!(ino.first_cluster, 9);
    assert_eq!(ino.size(), 3);
    assert_eq!(ino.name, "X.BIN");
    assert!(!ino.is_dir());
    assert!(ino.is_regular_file());
    let dir = ExInode::from_record(1, &FileRecord {
        name: "D".to_string(),
        attributes: 0x0010,
        first_cluster: 7,
        size: 0,
    });
    assert!(dir.is_dir());
    assert!(!dir.is_regular_file());
    assert_eq!(dir.clone().name, "D");
}

#[test]
fn inode_summary_table() {
    let ino = ExInode {
        i_num: (7u64 << 32) | 3,
        attributes: 0x0010,
        first_cluster: 9,
        size: 4096,
        name: "Docs".to_string(),
    };
    let mut t = Table::new();
    for (label, value) in [
        ("Identifier", "0x700000003"),
        ("Attributes", "0x0010"),
        ("First cluster", "9"),
        ("Size", "4096"),
        ("Dir?", "true"),
        ("Name", "Docs"),
    ] {
        t.add_row(Row::new(vec![Cell::new(label), Cell::new(value)]));
    }
    assert_eq!(ino.to_string(), t.to_string());
    assert!(ino.to_string().contains("| Identifier    | 0x700000003 |"));
    let file = ExInode { attributes: 0x20, ..ino };
    assert!(file.to_string().contains("| Dir?          | false       |"));
}

#[test]
fn names_are_ordered_by_their_bytes() {
    assert!(comes_before("B.TXT", "a.txt"));
    assert!(!comes_before("a.txt", "B.TXT"));
    assert!(comes_before("", "a"));
    assert!(!comes_before("", ""));
    assert!(!comes_before("a", ""));
    assert!(comes_before("ab", "abc"));
    assert!(!comes_before("abc", "abc"));
    assert!(comes_before("z", "\u{E9}"));
    assert!(comes_before("\u{E9}", "\u{4E2D}"));
    assert!(comes_before("\u{FFFF}", "\u{1F600}"));
    assert_eq!(name_order("a", "b"), Ordering::Less);
    assert_eq!(name_order("b", "a"), Ordering::Greater);
    assert_eq!(name_order("same", "same"), Ordering::Equal);
    for (a, b) in [("x", "y"), ("", "q"), ("Zed", "alpha"), ("\u{E9}", "e"), ("k", "k")] {
        assert_eq!(name_order(a, b), a.cmp(b));
        assert_eq!(name_order(b, a), b.cmp(a));
    }
}

#[test]
fn plain_text_has_one_line_and_no_escape() {
    assert!(is_plain_text(""));
    assert!(is_plain_text("HI.TXT"));
    assert!(is_plain_text("Cluster heap offset (sectors)"));
    assert!(is_plain_text("tab\tand \u{644}\u{627} and \u{1F600}"));
    assert!(!is_plain_text("a\n"));
    assert!(!is_plain_text("\nb"));
    assert!(!is_plain_text("a\rb"));
    assert!(!is_plain_text("\u{1b}[31m"));
    assert!(!is_plain_text("\u{1b}[\u{644}\u{627}\u{644}\u{627}"));
}

#[test]
fn inode_summary_table_keeps_a_wide_name() {
    let ino = ExInode {
        i_num: 1,
        attributes: 0x20,
        first_cluster: 2,
        size: 0,
        name: "\u{644}\u{627}.txt".to_string(),
    };
    assert!(is_plain_text(&ino.name));
    let text = ino.to_string();
    assert!(text.contains("\u{644}\u{627}.txt"));
    assert_eq!(text.lines().count(), 13);
}
