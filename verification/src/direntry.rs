//! Directory entries: 32-byte records, their kinds, and the assembly of a
//! file record from the records of one entry set.

use crate::le::{le16, le32, le64, read_le16, read_le32, read_le64};
use crate::text::{
    char_from_u32, is_scalar_value, push_char, utf16_lossy, utf16_lossy_text, REPLACEMENT,
};
use vstd::prelude::*;
use vstd::std_specs::convert::FromSpecImpl;
use vstd::string::StringExecFns;

verus! {

/// Size of a directory record in bytes.
pub const RECORD_LEN: usize = 32;

/// Attribute bit that marks a directory.
pub const ATTR_DIRECTORY: u16 = 0x0010;

/// The kinds of directory records, told apart by the first byte.
#[derive(Debug, Clone, Copy, PartialEq, Eq, Structural)]
pub enum EntryType {
    AllocationBitmap,
    UpCaseTable,
    VolumeLabel,
    File,
    StreamExt,
    FileName,
    Unknown(u8),
    End,
}

/// The kind that the first byte of a record stands for.
pub open spec fn entry_kind(v: u8) -> EntryType {
    if v == 0x00 {
        EntryType::End
    } else if v == 0x81 {
        EntryType::AllocationBitmap
    } else if v == 0x82 {
        EntryType::UpCaseTable
    } else if v == 0x83 {
        EntryType::VolumeLabel
    } else if v == 0x85 {
        EntryType::File
    } else if v == 0xC0 {
        EntryType::StreamExt
    } else if v == 0xC1 {
        EntryType::FileName
    } else {
        EntryType::Unknown(v)
    }
}

impl From<u8> for EntryType {
    fn from(v: u8) -> (r: Self) {
        match v {
            0x00 => EntryType::End,
            0x81 => EntryType::AllocationBitmap,
            0x82 => EntryType::UpCaseTable,
            0x83 => EntryType::VolumeLabel,
            0x85 => EntryType::File,
            0xC0 => EntryType::StreamExt,
            0xC1 => EntryType::FileName,
            x => EntryType::Unknown(x),
        }
    }
}

impl FromSpecImpl<u8> for EntryType {
    open spec fn obeys_from_spec() -> bool {
        true
    }

    open spec fn from_spec(v: u8) -> Self {
        entry_kind(v)
    }
}

/// One 32-byte directory record, with its type byte.
#[derive(Debug, Clone)]
pub struct RawDirEnt {
    pub entry_type: u8,
    pub raw: [u8; 32],
}

/// A record as plain values: its type byte and its 32 bytes.
pub struct RawView {
    pub entry_type: u8,
    pub raw: Seq<u8>,
}

impl RawView {
    /// The kind that the type byte stands for.
    pub open spec fn kind(self) -> EntryType {
        entry_kind(self.entry_type)
    }
}

/// The record that the first 32 bytes of `b` hold.
pub open spec fn record_of(b: Seq<u8>) -> RawView {
    RawView { entry_type: b[0], raw: b.subrange(0, RECORD_LEN as int) }
}

impl View for RawDirEnt {
    type V = RawView;

    open spec fn view(&self) -> RawView {
        RawView { entry_type: self.entry_type, raw: self.raw@ }
    }
}

/// The records of `s` as plain values.
pub open spec fn raw_views(s: Seq<RawDirEnt>) -> Seq<RawView> {
    s.map_values(|e: RawDirEnt| e@)
}

impl RawDirEnt {
    /// Copies the first 32 bytes of `b` into a record.
    pub fn from_bytes(b: &[u8]) -> (r: Self)
        requires
            b.len() >= RECORD_LEN,
        ensures
            r@ == record_of(b@),
    {
        let mut raw = [0u8;32];
        let mut k: usize = 0;
        while k < RECORD_LEN
            invariant
                k <= RECORD_LEN,
                b.len() >= RECORD_LEN,
                forall|j: int| 0 <= j < k ==> raw@[j] == b@[j],
            decreases RECORD_LEN - k,
        {
            raw[k] = b[k];
            k += 1;
        }
        assert(raw@ =~= b@.subrange(0, RECORD_LEN as int));
        Self { entry_type: raw[0], raw }
    }

    /// The kind that the type byte stands for.
    pub fn kind(&self) -> (r: EntryType)
        ensures
            r == self@.kind(),
    {
        EntryType::from(self.entry_type)
    }
}

/// The file entry: the primary record of an entry set.
#[derive(Debug, Clone)]
pub struct FileDirectoryEntry {
    pub secondary_count: u8,
    pub set_checksum: u16,
    pub attributes: u16,
    pub create_time: u32,
    pub last_mod_time: u32,
    pub last_access_time: u32,
}

impl FileDirectoryEntry {
    /// The fields of a file entry, each at its offset in the 32 bytes.
    pub open spec fn decode(raw: Seq<u8>) -> Self {
        FileDirectoryEntry {
            secondary_count: raw[1],
            set_checksum: le16(raw, 2) as u16,
            attributes: le16(raw, 4) as u16,
            create_time: le32(raw, 8) as u32,
            last_mod_time: le32(raw, 12) as u32,
            last_access_time: le32(raw, 16) as u32,
        }
    }

    /// Decodes the record as a file entry.
    pub fn parse(raw: &RawDirEnt) -> (r: Self)
        ensures
            r == Self::decode(raw.raw@),
    {
        let b = raw.raw.as_slice();
        Self {
            secondary_count: b[1],
            set_checksum: read_le16(b, 2),
            attributes: read_le16(b, 4),
            create_time: read_le32(b, 8),
            last_mod_time: read_le32(b, 12),
            last_access_time: read_le32(b, 16),
        }
    }
}

/// The stream extension entry: where the data of a file lie and how long
/// they are.
#[derive(Debug, Clone)]
pub struct StreamExtensionEntry {
    pub general_flags: u8,
    pub first_cluster: u32,
    pub data_length: u64,
}

impl StreamExtensionEntry {
    /// The fields of a stream extension entry, each at its offset in the 32 bytes.
    pub open spec fn decode(raw: Seq<u8>) -> Self {
        StreamExtensionEntry {
            general_flags: raw[1],
            first_cluster: le32(raw, 20) as u32,
            data_length: le64(raw, 24) as u64,
        }
    }

    /// Decodes the record as a stream extension entry.
    pub fn parse(raw: &RawDirEnt) -> (r: Self)
        ensures
            r == Self::decode(raw.raw@),
    {
        let b = raw.raw.as_slice();
        Self {
            general_flags: b[1],
            first_cluster: read_le32(b, 20),
            data_length: read_le64(b, 24),
        }
    }
}

/// The entry that places the allocation bitmap.
#[derive(Debug, Clone)]
pub struct AllocationBitmapEntry {
    pub first_cluster: u32,
    pub data_length: u32,
}

impl AllocationBitmapEntry {
    /// The fields of an allocation bitmap entry, each at its offset in the 32 bytes.
    pub open spec fn decode(raw: Seq<u8>) -> Self {
        AllocationBitmapEntry {
            first_cluster: le32(raw, 20) as u32,
            data_length: le32(raw, 24) as u32,
        }
    }

    /// Decodes the record as an allocation bitmap entry.
    pub fn parse(raw: &RawDirEnt) -> (r: Self)
        ensures
            r == Self::decode(raw.raw@),
    {
        let b = raw.raw.as_slice();
        Self { first_cluster: read_le32(b, 20), data_length: read_le32(b, 24) }
    }
}

/// The entry that places the up-case table.
#[derive(Debug, Clone)]
pub struct UpcaseTableEntry {
    pub first_cluster: u32,
    pub data_length: u32,
}

impl UpcaseTableEntry {
    /// The fields of an up-case table entry, each at its offset in the 32 bytes.
    pub open spec fn decode(raw: Seq<u8>) -> Self {
        UpcaseTableEntry {
            first_cluster: le32(raw, 20) as u32,
            data_length: le32(raw, 24) as u32,
        }
    }

    /// Decodes the record as an up-case table entry.
    pub fn parse(raw: &RawDirEnt) -> (r: Self)
        ensures
            r == Self::decode(raw.raw@),
    {
        let b = raw.raw.as_slice();
        Self { first_cluster: read_le32(b, 20), data_length: read_le32(b, 24) }
    }
}

/// Number of UTF-16 code units that a file name entry holds.
pub const NAME_UNITS: usize = 15;

/// Largest number of UTF-16 code units of a volume label.
pub const LABEL_UNITS: usize = 11;

/// The UTF-16 code unit at position `i` of the name region, which starts at
/// byte 2 of a record.
pub open spec fn unit_at(raw: Seq<u8>, i: int) -> u16 {
    le16(raw, 2 + 2 * i) as u16
}

/// The code units of a file name entry from position `i` up to the first
/// NUL, or up to the end of the entry.
pub open spec fn name_units_from(raw: Seq<u8>, i: int) -> Seq<u16>
    decreases NAME_UNITS - i,
{
    if i < 0 || i >= NAME_UNITS || unit_at(raw, i) == 0 {
        Seq::empty()
    } else {
        seq![unit_at(raw, i)] + name_units_from(raw, i + 1)
    }
}

/// The piece of a file name that a file name entry holds.
pub open spec fn fragment_text(raw: Seq<u8>) -> Seq<char> {
    utf16_lossy_text(name_units_from(raw, 0))
}

/// A file name entry: one piece of a file name.
#[derive(Debug, Clone)]
pub struct FileNameEntry {
    pub name_fragment: String,
}

impl FileNameEntry {
    /// Decodes the record as a file name entry: the code units up to the first
    /// NUL, as text.
    pub fn parse(raw: &RawDirEnt) -> (r: Self)
        ensures
            r.name_fragment@ == fragment_text(raw.raw@),
    {
        let b = raw.raw.as_slice();
        let mut units: Vec<u16> = Vec::new();
        let mut i: usize = 0;
        while i < NAME_UNITS
            invariant_except_break
                name_units_from(b@, 0) == units@ + name_units_from(b@, i as int),
            invariant
                i <= NAME_UNITS,
                b@.len() == RECORD_LEN,
            ensures
                name_units_from(b@, 0) == units@,
            decreases NAME_UNITS - i,
        {
            let u = read_le16(b, 2 + 2 * i);
            if u == 0 {
                assert(units@ + Seq::<u16>::empty() =~= units@);
                break;
            }
            let ghost before = units@;
            units.push(u);
            assert(before + (seq![u] + name_units_from(b@, i + 1)) =~= units@ + name_units_from(
                b@,
                i + 1,
            ));
            i += 1;
        }
        assert(units@ + Seq::<u16>::empty() =~= units@);
        Self { name_fragment: utf16_lossy(units.as_slice()) }
    }
}

/// The character of a volume label that the code unit `u` stands for.
pub open spec fn label_char(u: u16) -> char {
    if is_scalar_value(u as u32) {
        u as char
    } else {
        REPLACEMENT
    }
}

/// Number of characters of the label that a volume label entry holds.
pub open spec fn label_len(raw: Seq<u8>) -> int {
    if raw[1] < LABEL_UNITS {
        raw[1] as int
    } else {
        LABEL_UNITS as int
    }
}

/// The label that a volume label entry holds.
pub open spec fn label_text(raw: Seq<u8>) -> Seq<char> {
    Seq::new(label_len(raw) as nat, |i: int| label_char(unit_at(raw, i)))
}

/// The entry that holds the label of the volume.
#[derive(Debug, Clone)]
pub struct VolumeLabelEntry {
    pub label: String,
}

impl VolumeLabelEntry {
    /// Decodes the record as a volume label entry: as many characters as its
    /// second byte says, eleven at most.
    pub fn parse(raw: &RawDirEnt) -> (r: Self)
        ensures
            r.label@ == label_text(raw.raw@),
    {
        let b = raw.raw.as_slice();
        let len: usize = if (b[1] as usize) < LABEL_UNITS {
            b[1] as usize
        } else {
            LABEL_UNITS
        };
        let mut out = String::new();
        let mut i: usize = 0;
        while i < len
            invariant
                i <= len,
                len == label_len(b@),
                len <= LABEL_UNITS,
                b@.len() == RECORD_LEN,
                out@ == Seq::new(i as nat, |j: int| label_char(unit_at(b@, j))),
            decreases len - i,
        {
            let ch = read_le16(b, 2 + 2 * i);
            let c = match char_from_u32(ch as u32) {
                Some(c) => c,
                None => REPLACEMENT,
            };
            push_char(&mut out, c);
            i += 1;
            assert(out@ =~= Seq::new(i as nat, |j: int| label_char(unit_at(b@, j))));
        }
        Self { label: out }
    }
}

/// One file or directory of a listing.
#[derive(Debug)]
pub struct FileRecord {
    pub name: String,
    pub attributes: u16,
    pub first_cluster: u32,
    pub size: u64,
}

/// A file record as plain values.
pub struct RecordView {
    pub name: Seq<char>,
    pub attributes: u16,
    pub first_cluster: u32,
    pub size: u64,
}

impl RecordView {
    /// Whether the directory bit is set among the attributes.
    pub open spec fn is_dir(self) -> bool {
        self.attributes & ATTR_DIRECTORY != 0
    }
}

impl View for FileRecord {
    type V = RecordView;

    open spec fn view(&self) -> RecordView {
        RecordView {
            name: self.name@,
            attributes: self.attributes,
            first_cluster: self.first_cluster,
            size: self.size,
        }
    }
}

impl Clone for FileRecord {
    fn clone(&self) -> (r: Self)
        ensures
            r == *self,
    {
        FileRecord {
            name: self.name.clone(),
            attributes: self.attributes,
            first_cluster: self.first_cluster,
            size: self.size,
        }
    }
}

impl FileRecord {
    /// Whether the record stands for a directory.
    pub fn is_dir(&self) -> (r: bool)
        ensures
            r == self@.is_dir(),
    {
        (self.attributes & ATTR_DIRECTORY) != 0
    }
}

/// The file entry that comes last among `set`.
pub open spec fn last_file_entry(set: Seq<RawView>) -> Option<FileDirectoryEntry>
    decreases set.len(),
{
    if set.len() == 0 {
        None
    } else if set.last().kind() == EntryType::File {
        Some(FileDirectoryEntry::decode(set.last().raw))
    } else {
        last_file_entry(set.drop_last())
    }
}

/// The stream extension entry that comes last among `set`.
pub open spec fn last_stream_entry(set: Seq<RawView>) -> Option<StreamExtensionEntry>
    decreases set.len(),
{
    if set.len() == 0 {
        None
    } else if set.last().kind() == EntryType::StreamExt {
        Some(StreamExtensionEntry::decode(set.last().raw))
    } else {
        last_stream_entry(set.drop_last())
    }
}

/// The pieces of all file name entries of `set`, in order, as one name.
pub open spec fn joined_name(set: Seq<RawView>) -> Seq<char>
    decreases set.len(),
{
    if set.len() == 0 {
        Seq::empty()
    } else if set.last().kind() == EntryType::FileName {
        joined_name(set.drop_last()) + fragment_text(set.last().raw)
    } else {
        joined_name(set.drop_last())
    }
}

/// The file record that the records of one entry set make: attributes from
/// the file entry, first cluster and size from the stream extension entry,
/// the name from the file name entries. `None` where the file entry or the
/// stream extension entry is missing.
pub open spec fn assembled(set: Seq<RawView>) -> Option<RecordView> {
    match (last_file_entry(set), last_stream_entry(set)) {
        (Some(fd), Some(st)) => Some(
            RecordView {
                name: joined_name(set),
                attributes: fd.attributes,
                first_cluster: st.first_cluster,
                size: st.data_length,
            },
        ),
        _ => None,
    }
}

/// Where `k` is the one stream extension entry of `set`, the last one is it.
pub proof fn lemma_only_stream_entry(set: Seq<RawView>, k: int)
    requires
        0 <= k < set.len(),
        set[k].kind() == EntryType::StreamExt,
        forall|j: int| 0 <= j < set.len() && j != k ==> set[j].kind() != EntryType::StreamExt,
    ensures
        last_stream_entry(set) == Some(StreamExtensionEntry::decode(set[k].raw)),
    decreases set.len(),
{
    if k != set.len() - 1 {
        let shorter = set.drop_last();
        assert(set.last().kind() != EntryType::StreamExt);
        assert(shorter[k] == set[k]);
        assert forall|j: int| 0 <= j < shorter.len() && j != k implies shorter[j].kind()
            != EntryType::StreamExt by {
            assert(shorter[j] == set[j]);
        }
        lemma_only_stream_entry(shorter, k);
    }
}

/// Where `k` is the one file entry of `set`, the last one is it.
pub proof fn lemma_only_file_entry(set: Seq<RawView>, k: int)
    requires
        0 <= k < set.len(),
        set[k].kind() == EntryType::File,
        forall|j: int| 0 <= j < set.len() && j != k ==> set[j].kind() != EntryType::File,
    ensures
        last_file_entry(set) == Some(FileDirectoryEntry::decode(set[k].raw)),
    decreases set.len(),
{
    if k != set.len() - 1 {
        let shorter = set.drop_last();
        assert(set.last().kind() != EntryType::File);
        assert(shorter[k] == set[k]);
        assert forall|j: int| 0 <= j < shorter.len() && j != k implies shorter[j].kind()
            != EntryType::File by {
            assert(shorter[j] == set[j]);
        }
        lemma_only_file_entry(shorter, k);
    }
}

/// An entry set with one file entry, at `p`, and one stream extension entry,
/// at `k`, gives a record, and the record has the size and the first cluster
/// that the stream extension entry holds and the attributes of the file entry.
pub proof fn lemma_assembled_from_stream(set: Seq<RawView>, p: int, k: int)
    requires
        0 <= p < set.len(),
        0 <= k < set.len(),
        set[p].kind() == EntryType::File,
        set[k].kind() == EntryType::StreamExt,
        forall|j: int| 0 <= j < set.len() && j != p ==> set[j].kind() != EntryType::File,
        forall|j: int| 0 <= j < set.len() && j != k ==> set[j].kind() != EntryType::StreamExt,
    ensures
        assembled(set) matches Some(fr) && fr.size == StreamExtensionEntry::decode(
            set[k].raw,
        ).data_length && fr.first_cluster == StreamExtensionEntry::decode(set[k].raw).first_cluster
            && fr.attributes == FileDirectoryEntry::decode(set[p].raw).attributes,
{
    lemma_only_file_entry(set, p);
    lemma_only_stream_entry(set, k);
}

/// Assembles the records of one entry set into a file record.
pub fn assemble_file(set: &[RawDirEnt]) -> (r: Option<FileRecord>)
    ensures
        match r {
            Some(fr) => assembled(raw_views(set@)) == Some(fr@),
            None => assembled(raw_views(set@)) is None,
        },
{
    if set.len() == 0 {
        return None;
    }
    let ghost all = raw_views(set@);
    let mut fde: Option<FileDirectoryEntry> = None;
    let mut stream: Option<StreamExtensionEntry> = None;
    let mut name = String::new();
    let mut i: usize = 0;
    while i < set.len()
        invariant
            i <= set.len(),
            all == raw_views(set@),
            fde == last_file_entry(all.take(i as int)),
            stream == last_stream_entry(all.take(i as int)),
            name@ == joined_name(all.take(i as int)),
        decreases set.len() - i,
    {
        let e = &set[i];
        proof {
            let shorter = all.take(i as int);
            let longer = all.take(i + 1);
            assert(longer.drop_last() =~= shorter);
            assert(longer.last() == e@);
        }
        match e.kind() {
            EntryType::File => {
                fde = Some(FileDirectoryEntry::parse(e));
            },
            EntryType::StreamExt => {
                stream = Some(StreamExtensionEntry::parse(e));
            },
            EntryType::FileName => {
                let piece = FileNameEntry::parse(e);
                name.append(piece.name_fragment.as_str());
            },
            _ => {},
        }
        i += 1;
    }
    assert(all.take(set.len() as int) =~= all);
    match (fde, stream) {
        (Some(fd), Some(st)) => Some(
            FileRecord {
                name,
                attributes: fd.attributes,
                first_cluster: st.first_cluster,
                size: st.data_length,
            },
        ),
        _ => None,
    }
}

} // verus!
