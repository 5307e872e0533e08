//! The filesystem handle: opens a volume, lists directories, reads files,
//! and resolves paths.

use crate::bpb::{decode_fields, rejection, BootFields, BootSector, BOOT_SECTOR_LEN};
use crate::compat::{compat_views, is_stable_sort, CompatDirEntry};
use crate::direntry::{
    assemble_file, raw_views, record_of, EntryType, FileRecord, RawDirEnt, RawView, RecordView,
    RECORD_LEN,
};
use crate::exinode::ExInode;
use crate::fat::{
    chain, chain_end, lemma_end_with_chain, names_no_cluster, walk_reads_nothing, ChainEnd, Fat,
    CLUSTER_LIMIT, FIRST_CLUSTER,
};
use crate::index::{
    child_match, children, distinct_inodes, index_dir, inode_bytes, inode_lookup,
    inode_needs_no_read, lemma_slot_of,
    lemma_unvisited_room, path_inode, put, resolved_inode, slot_of, subdirs, traverse, unvisited,
    volume_index,
};
use crate::order::sort_by_name;
use crate::path::{components, eq_ignore_ascii_case, part_views, split_path};
use crate::source::ByteSource;
use crate::text::dec_string;
use crate::volume::{
    cluster_bytes, clusters_bytes, dir_entries, dir_records, entries_from, file_bytes,
    file_chain_limit, first_match, gathered, inode_number, lemma_clusters_bytes_prefix,
    lemma_records_push, path_bytes, records_of, records_only, resolved, set_end, with_inodes,
    DIR_CHAIN_LIMIT, FILE_CHAIN_SLACK,
};
use std::collections::{HashMap, HashSet};
use vstd::prelude::*;
use vstd::std_specs::convert::FromSpecImpl;
use vstd::string::StringExecFns;

verus! {

broadcast use vstd::std_specs::hash::group_hash_axioms;

/// What an operation on a volume fails with.
#[derive(Debug)]
pub enum FsError {
    Io(std::io::Error),
    Parse(String),
    NotFound(String),
    NotAFile(String),
}

/// The kinds of failure, with the text that each carries. A failure of the
/// byte source carries none.
pub enum Failure {
    Io,
    Parse(Seq<char>),
    NotFound(Seq<char>),
    NotAFile(Seq<char>),
}

impl View for FsError {
    type V = Failure;

    open spec fn view(&self) -> Failure {
        match self {
            FsError::Io(_) => Failure::Io,
            FsError::Parse(m) => Failure::Parse(m@),
            FsError::NotFound(m) => Failure::NotFound(m@),
            FsError::NotAFile(m) => Failure::NotAFile(m@),
        }
    }
}

impl From<std::io::Error> for FsError {
    fn from(e: std::io::Error) -> (r: Self) {
        FsError::Io(e)
    }
}

impl FromSpecImpl<std::io::Error> for FsError {
    open spec fn obeys_from_spec() -> bool {
        true
    }

    open spec fn from_spec(e: std::io::Error) -> Self {
        FsError::Io(e)
    }
}

/// How a result relates to what the bytes of the volume determine.
///
/// A result other than a failure of the byte source is the one determined.
/// The byte source may fail where the bytes determine a failure of it; one
/// that is not dependable may fail at any read.
pub open spec fn agrees<V>(dependable: bool, got: Result<V, Failure>, want: Result<V, Failure>) -> bool {
    match got {
        Err(Failure::Io) => !dependable || want == Err::<V, Failure>(Failure::Io),
        _ => got == want,
    }
}

/// What `found` is where it could be read, a failure of the byte source
/// where it could not.
pub open spec fn read_or_fail<V>(found: Option<V>) -> Result<V, Failure> {
    match found {
        Some(v) => Ok(v),
        None => Err(Failure::Io),
    }
}

/// What opening a volume with the bytes `image` gives: the fields of its
/// boot sector, or the reason why it is turned down.
pub open spec fn opened(image: Seq<u8>) -> Result<BootFields, Failure> {
    if image.len() < BOOT_SECTOR_LEN {
        Err(Failure::Io)
    } else {
        match rejection(image.subrange(0, BOOT_SECTOR_LEN as int)) {
            Some(m) => Err(Failure::Parse(m)),
            None => Ok(decode_fields(image.subrange(0, BOOT_SECTOR_LEN as int))),
        }
    }
}

/// A result that holds bytes, as plain values.
pub open spec fn bytes_result(r: Result<Vec<u8>, FsError>) -> Result<Seq<u8>, Failure> {
    match r {
        Ok(v) => Ok(v@),
        Err(e) => Err(e@),
    }
}

/// A result that holds records, as plain values.
pub open spec fn raw_result(r: Result<Vec<RawDirEnt>, FsError>) -> Result<Seq<RawView>, Failure> {
    match r {
        Ok(v) => Ok(raw_views(v@)),
        Err(e) => Err(e@),
    }
}

/// The records of a listing as plain values.
pub open spec fn record_views(s: Seq<FileRecord>) -> Seq<RecordView> {
    s.map_values(|fr: FileRecord| fr@)
}

/// The records of a listing with identifiers as plain values.
pub open spec fn numbered_views(s: Seq<(u64, FileRecord)>) -> Seq<(u64, RecordView)> {
    s.map_values(|e: (u64, FileRecord)| (e.0, e.1@))
}

/// The records of a listing with positions as plain values.
pub open spec fn placed_views(s: Seq<(usize, FileRecord)>) -> Seq<(int, RecordView)> {
    s.map_values(|e: (usize, FileRecord)| (e.0 as int, e.1@))
}

/// A result that holds a listing, as plain values.
pub open spec fn records_result(r: Result<Vec<FileRecord>, FsError>) -> Result<
    Seq<RecordView>,
    Failure,
> {
    match r {
        Ok(v) => Ok(record_views(v@)),
        Err(e) => Err(e@),
    }
}

/// A result that holds a listing with identifiers, as plain values.
pub open spec fn numbered_result(r: Result<Vec<(u64, FileRecord)>, FsError>) -> Result<
    Seq<(u64, RecordView)>,
    Failure,
> {
    match r {
        Ok(v) => Ok(numbered_views(v@)),
        Err(e) => Err(e@),
    }
}

/// One entry of the index of identifiers.
#[derive(Debug)]
pub struct IndexEntry {
    pub inode: u64,
    pub parent: u32,
    pub position: usize,
    pub record: FileRecord,
}

/// An entry of the index as plain values.
pub struct Indexed {
    pub inode: u64,
    pub parent: u32,
    pub position: int,
    pub record: RecordView,
}

impl View for IndexEntry {
    type V = Indexed;

    open spec fn view(&self) -> Indexed {
        Indexed {
            inode: self.inode,
            parent: self.parent,
            position: self.position as int,
            record: self.record@,
        }
    }
}

/// A handle on an exFAT volume: its boot sector, the byte source, and the
/// index of identifiers, which is built when it is first needed.
pub struct ExFatFS<T: ByteSource> {
    pub bpb: BootSector,
    io: T,
    index_built: bool,
    arena: Vec<IndexEntry>,
    lookup: HashMap<u64, usize>,
}

/// Whether the lookup table `lookup` gives, for every identifier, the slot
/// of `arena` that holds it, and `arena` is the index of the volume where
/// it counts as built.
pub open spec fn index_in_order(
    lookup: Map<u64, usize>,
    arena: Seq<IndexEntry>,
    built: bool,
    image: Seq<u8>,
    bpb: BootSector,
) -> bool {
    &&& forall|k: u64| #[trigger]
        lookup.contains_key(k) ==> (lookup[k] as int) < arena.len() && arena[lookup[k] as int].inode
            == k
    &&& forall|i: int|
        0 <= i < arena.len() ==> lookup.contains_key((#[trigger] arena[i]).inode)
            && lookup[arena[i].inode] == i
    &&& built ==> volume_index(image, bpb) == Some(arena.map_values(|e: IndexEntry| e@))
}

/// The entry sets of `ents`, assembled, each with the position of its file
/// entry.
pub fn entry_sets(ents: &[RawDirEnt]) -> (out: Vec<(usize, FileRecord)>)
    ensures
        placed_views(out@) == entries_from(raw_views(ents@), 0),
{
    let ghost records = raw_views(ents@);
    let mut out: Vec<(usize, FileRecord)> = Vec::new();
    let mut i: usize = 0;
    assert(placed_views(out@) =~= Seq::empty());
    while i < ents.len()
        invariant_except_break
            entries_from(records, 0) == placed_views(out@) + entries_from(records, i as int),
        invariant
            i <= ents.len(),
            records == raw_views(ents@),
        ensures
            entries_from(records, 0) == placed_views(out@),
        decreases ents.len() - i,
    {
        assert(records[i as int] == ents@[i as int]@);
        match ents[i].kind() {
            EntryType::End => {
                assert(placed_views(out@) + Seq::<(int, RecordView)>::empty() =~= placed_views(
                    out@,
                ));
                break;
            },
            EntryType::File => {
                let sec_cnt: usize = ents[i].raw[1] as usize;
                let end: usize = if sec_cnt < ents.len() - i {
                    i + 1 + sec_cnt
                } else {
                    ents.len()
                };
                assert(end == set_end(records, i as int));
                let set = &ents[i..end];
                assert(raw_views(set@) =~= records.subrange(i as int, end as int));
                let ghost before = placed_views(out@);
                if let Some(fr) = assemble_file(set) {
                    let ghost item = (i as int, fr@);
                    out.push((i, fr));
                    assert(placed_views(out@) =~= before.push(item));
                    assert(before + (seq![item] + entries_from(records, end as int))
                        =~= before.push(item) + entries_from(records, end as int));
                }
                i = end;
            },
            _ => {
                i += 1;
            },
        }
    }
    assert(placed_views(out@) + Seq::<(int, RecordView)>::empty() =~= placed_views(out@));
    out
}

impl<T: ByteSource> ExFatFS<T> {
    /// The boot sector that the handle was opened with.
    pub closed spec fn boot(&self) -> BootSector {
        self.bpb
    }

    /// The bytes of the volume.
    pub closed spec fn image(&self) -> Seq<u8> {
        self.io.image()
    }

    /// Whether the byte source fails only where a read reaches past the end
    /// of the volume.
    pub closed spec fn dependable(&self) -> bool {
        self.io.dependable()
    }

    /// Whether the index of identifiers has been built.
    pub closed spec fn index_built(&self) -> bool {
        self.index_built
    }

    /// The entries of the index of identifiers, in the order in which the
    /// traversal found them.
    pub closed spec fn index(&self) -> Seq<Indexed> {
        self.arena@.map_values(|e: IndexEntry| e@)
    }

    /// Whether the index is in order: every identifier is found in the slot
    /// that holds it, and an index that counts as built is that of the volume.
    pub closed spec fn index_wf(&self) -> bool {
        index_in_order(self.lookup@, self.arena@, self.index_built, self.io.image(), self.bpb)
    }

    /// What holds of every handle that `new` gave and that only the methods
    /// of this type have touched.
    pub open spec fn wf(&self) -> bool {
        &&& self.boot().valid()
        &&& self.index_wf()
        &&& !self.index_built() ==> self.index().len() == 0
    }

    /// Whether `self` is a handle on the volume of `pre`.
    pub open spec fn same_volume(&self, pre: &Self) -> bool {
        &&& self.boot() == pre.boot()
        &&& self.image() == pre.image()
        &&& self.dependable() == pre.dependable()
    }

    /// Whether `self` is `pre` after reads only.
    pub open spec fn after_reads(&self, pre: &Self) -> bool {
        &&& self.boot() == pre.boot()
        &&& self.image() == pre.image()
        &&& self.dependable() == pre.dependable()
        &&& self.index_built() == pre.index_built()
        &&& self.index() == pre.index()
        &&& self.index_wf() == pre.index_wf()
    }

    /// Opens the volume that `io` holds: reads the first 512 bytes and
    /// decodes them as the boot sector.
    pub fn new(io: T) -> (r: Result<Self, FsError>)
        ensures
            agrees(
                io.dependable(),
                match r {
                    Ok(fs) => Ok(fs.boot()@),
                    Err(e) => Err(e@),
                },
                opened(io.image()),
            ),
            r matches Ok(fs) ==> fs.wf() && fs.image() == io.image() && fs.dependable()
                == io.dependable() && !fs.index_built() && fs.index().len() == 0,
    {
        let mut io = io;
        let b = match io.read_at(0, BOOT_SECTOR_LEN) {
            Ok(b) => b,
            Err(e) => {
                return Err(FsError::from(e));
            },
        };
        match BootSector::from_bytes(b.as_slice()) {
            Ok(bpb) => {
                let fs = Self {
                    bpb,
                    io,
                    index_built: false,
                    arena: Vec::new(),
                    lookup: HashMap::new(),
                };
                assert(fs.index() =~= Seq::empty());
                Ok(fs)
            },
            Err(m) => Err(FsError::Parse(m)),
        }
    }

    /// Bytes per sector of the volume.
    pub fn bytes_per_sector(&self) -> (r: u64)
        requires
            self.boot().bytes_per_sector_shift < 64,
        ensures
            r == self.boot().spec_bytes_per_sector(),
    {
        self.bpb.bytes_per_sector()
    }

    /// Byte offset of cluster `clus`. Clusters are numbered from 2.
    pub fn cluster_to_offset(&self, clus: u32) -> (r: u64)
        requires
            clus >= 2,
            self.boot().bytes_per_sector_shift < 64,
            self.boot().sectors_per_cluster_shift < 64,
            self.boot().spec_cluster_to_byte_offset(clus as int) <= u64::MAX,
        ensures
            r == self.boot().spec_cluster_to_byte_offset(clus as int),
    {
        self.bpb.cluster_to_byte_offset(clus)
    }

    /// The boot sector that the handle was opened with.
    pub fn boot_sector(&self) -> (b: &BootSector)
        ensures
            *b == self.boot(),
    {
        &self.bpb
    }

    /// Number of clusters that are followed for a file of `size` bytes.
    pub fn chain_limit_for(&self, size: u64) -> (limit: usize)
        requires
            self.boot().valid(),
        ensures
            limit == file_chain_limit(size, self.boot().spec_bytes_per_cluster()),
    {
        proof {
            self.bpb.lemma_valid_geometry();
        }
        let bpc = self.bpb.bytes_per_cluster();
        let partial: u64 = if size % bpc == 0 {
            0
        } else {
            1
        };
        proof {
            vstd::arithmetic::div_mod::lemma_div_is_ordered_by_denominator(
                size as int,
                4096,
                bpc as int,
            );
        }
        let wanted: u64 = size / bpc + partial + FILE_CHAIN_SLACK;
        if wanted > usize::MAX as u64 {
            usize::MAX
        } else {
            wanted as usize
        }
    }

    /// Why the walk along the chain that starts at `first_cluster`, of at
    /// most `max` clusters, stops: what a caller may want to warn of.
    pub fn chain_end(&mut self, first_cluster: u32, max: usize) -> (r: Result<ChainEnd, FsError>)
        requires
            old(self).boot().valid(),
        ensures
            final(self).after_reads(old(self)),
            agrees(
                old(self).dependable(),
                match r {
                    Ok(end) => Ok(end),
                    Err(e) => Err(e@),
                },
                read_or_fail(
                    chain_end(
                        old(self).image(),
                        old(self).boot().spec_fat_start_byte(),
                        first_cluster,
                        max as nat,
                    ),
                ),
            ),
            walk_reads_nothing(first_cluster, max as nat) ==> r is Ok,
    {
        proof {
            self.bpb.lemma_valid_geometry();
            lemma_end_with_chain(
                self.image(),
                self.bpb.spec_fat_start_byte(),
                first_cluster,
                max as nat,
            );
        }
        let walked = {
            let mut fat = Fat::new(&self.bpb, &mut self.io);
            fat.walk_chain_with_end(first_cluster, max)
        };
        match walked {
            Ok(w) => Ok(w.1),
            Err(e) => Err(FsError::from(e)),
        }
    }

    /// Reads the bytes of one cluster.
    pub fn read_cluster(&mut self, cluster: u32) -> (r: Result<Vec<u8>, FsError>)
        requires
            old(self).boot().valid(),
            cluster >= FIRST_CLUSTER,
        ensures
            final(self).after_reads(old(self)),
            agrees(
                old(self).dependable(),
                bytes_result(r),
                read_or_fail(cluster_bytes(old(self).image(), old(self).boot(), cluster)),
            ),
    {
        proof {
            self.bpb.lemma_valid_geometry();
        }
        let off = self.cluster_to_offset(cluster);
        let len = self.bpb.bytes_per_cluster() as usize;
        match self.io.read_at(off, len) {
            Ok(buf) => Ok(buf),
            Err(e) => Err(FsError::from(e)),
        }
    }

    /// Reads the records of the directory whose chain starts at
    /// `first_cluster`.
    pub fn read_dir_entries_from_chain(&mut self, first_cluster: u32) -> (r: Result<
        Vec<RawDirEnt>,
        FsError,
    >)
        requires
            old(self).boot().valid(),
        ensures
            final(self).after_reads(old(self)),
            agrees(
                old(self).dependable(),
                raw_result(r),
                read_or_fail(dir_records(old(self).image(), old(self).boot(), first_cluster)),
            ),
            names_no_cluster(first_cluster) ==> (r matches Ok(v) && v@.len() == 0),
    {
        proof {
            self.bpb.lemma_valid_geometry();
        }
        let ghost image = self.image();
        let ghost bpb = self.bpb;
        let walked = {
            let mut fat = Fat::new(&self.bpb, &mut self.io);
            fat.walk_chain(first_cluster, DIR_CHAIN_LIMIT)
        };
        let clusters = match walked {
            Ok(c) => c,
            Err(e) => {
                return Err(FsError::from(e));
            },
        };
        let mut out: Vec<RawDirEnt> = Vec::new();
        let ghost mut bytes: Seq<u8> = Seq::empty();
        let mut j: usize = 0;
        assert(clusters@.take(0) =~= Seq::<u32>::empty());
        assert(raw_views(out@) =~= records_of(bytes));
        while j < clusters.len()
            invariant
                j <= clusters.len(),
                self.after_reads(old(self)),
                self.boot().valid(),
                image == self.image(),
                bpb == self.bpb,
                forall|i: int|
                    0 <= i < clusters@.len() ==> FIRST_CLUSTER <= #[trigger] clusters@[i]
                        < CLUSTER_LIMIT,
                chain(image, bpb.spec_fat_start_byte(), first_cluster, DIR_CHAIN_LIMIT as nat)
                    == Some(clusters@),
                clusters_bytes(image, bpb, clusters@.take(j as int)) == Some(bytes),
                bytes.len() % RECORD_LEN as nat == 0,
                raw_views(out@) == records_of(bytes),
            decreases clusters.len() - j,
        {
            let cl = clusters[j];
            proof {
                assert(clusters@.take(j + 1).drop_last() =~= clusters@.take(j as int));
                assert(clusters@.take(j + 1).last() == cl);
                if let Some(all) = clusters_bytes(image, bpb, clusters@) {
                    lemma_clusters_bytes_prefix(image, bpb, clusters@, all, j as int);
                }
            }
            let buf = match self.read_cluster(cl) {
                Ok(b) => b,
                Err(e) => {
                    return Err(e);
                },
            };
            let ghost start = bytes;
            let mut k: usize = 0;
            proof {
                bpb.lemma_valid_geometry();
                assert(buf@.len() == bpb.spec_bytes_per_cluster());
                assert(buf@.take(0) =~= Seq::<u8>::empty());
                assert(start + buf@.take(0) =~= start);
            }
            while RECORD_LEN <= buf.len() - k
                invariant
                    k <= buf.len(),
                    k % RECORD_LEN == 0,
                    buf@.len() % RECORD_LEN as nat == 0,
                    start.len() % RECORD_LEN as nat == 0,
                    raw_views(out@) == records_of(start + buf@.take(k as int)),
                decreases buf.len() - k,
            {
                let chunk = &buf.as_slice()[k..k + RECORD_LEN];
                let ghost before = raw_views(out@);
                let e = RawDirEnt::from_bytes(chunk);
                out.push(e);
                proof {
                    assert(chunk@.subrange(0, RECORD_LEN as int) =~= chunk@);
                    assert(raw_views(out@) =~= before.push(record_of(chunk@)));
                    lemma_records_push(start + buf@.take(k as int), chunk@);
                    assert(start + buf@.take(k as int) + chunk@ =~= start + buf@.take(
                        k + RECORD_LEN,
                    ));
                }
                k += RECORD_LEN;
            }
            proof {
                assert(k == buf.len());
                assert(buf@.take(k as int) =~= buf@);
                bytes = start + buf@;
            }
            j += 1;
        }
        assert(clusters@.take(clusters.len() as int) =~= clusters@);
        Ok(out)
    }

    /// Lists the directory whose chain starts at `first_cluster`, each entry
    /// with its identifier.
    pub fn list_dir_with_inodes(&mut self, first_cluster: u32) -> (r: Result<
        Vec<(u64, FileRecord)>,
        FsError,
    >)
        requires
            old(self).boot().valid(),
        ensures
            final(self).after_reads(old(self)),
            agrees(
                old(self).dependable(),
                numbered_result(r),
                match dir_entries(old(self).image(), old(self).boot(), first_cluster) {
                    Some(entries) => Ok(with_inodes(first_cluster, entries)),
                    None => Err(Failure::Io),
                },
            ),
            names_no_cluster(first_cluster) ==> (r matches Ok(v) && v@.len() == 0),
    {
        let ents = match self.read_dir_entries_from_chain(first_cluster) {
            Ok(e) => e,
            Err(e) => {
                return Err(e);
            },
        };
        let mut sets = entry_sets(ents.as_slice());
        let ghost entries = placed_views(sets@);
        let mut out: Vec<(u64, FileRecord)> = Vec::new();
        let mut k: usize = 0;
        while k < sets.len()
            invariant
                k <= sets.len(),
                entries == placed_views(sets@),
                numbered_views(out@) == with_inodes(first_cluster, entries.take(k as int)),
            decreases sets.len() - k,
        {
            let ghost before = numbered_views(out@);
            let ino = ((first_cluster as u64) << 32) | (sets[k].0 as u64);
            let fr = sets[k].1.clone();
            out.push((ino, fr));
            proof {
                assert(numbered_views(out@) =~= before.push((ino, fr@)));
                assert(entries.take(k + 1) =~= entries.take(k as int).push(entries[k as int]));
                assert(with_inodes(first_cluster, entries.take(k + 1)) =~= with_inodes(
                    first_cluster,
                    entries.take(k as int),
                ).push((inode_number(first_cluster, entries[k as int].0), entries[k as int].1)));
            }
            k += 1;
        }
        assert(entries.take(sets.len() as int) =~= entries);
        Ok(out)
    }

    /// Lists the root directory, each entry with its identifier.
    pub fn list_root_with_inodes(&mut self) -> (r: Result<Vec<(u64, FileRecord)>, FsError>)
        requires
            old(self).boot().valid(),
        ensures
            final(self).after_reads(old(self)),
            agrees(
                old(self).dependable(),
                numbered_result(r),
                match dir_entries(
                    old(self).image(),
                    old(self).boot(),
                    old(self).boot().root_dir_first_cluster,
                ) {
                    Some(entries) => Ok(with_inodes(old(self).boot().root_dir_first_cluster, entries)),
                    None => Err(Failure::Io),
                },
            ),
    {
        let root = self.bpb.root_dir_first_cluster;
        self.list_dir_with_inodes(root)
    }

    /// Lists the directory whose chain starts at `first_cluster`, in the
    /// order in which its entries lie on the volume.
    pub fn list_dir(&mut self, first_cluster: u32) -> (r: Result<Vec<FileRecord>, FsError>)
        requires
            old(self).boot().valid(),
        ensures
            final(self).after_reads(old(self)),
            agrees(
                old(self).dependable(),
                records_result(r),
                match dir_entries(old(self).image(), old(self).boot(), first_cluster) {
                    Some(entries) => Ok(records_only(entries)),
                    None => Err(Failure::Io),
                },
            ),
            names_no_cluster(first_cluster) ==> (r matches Ok(v) && v@.len() == 0),
    {
        let ents = match self.read_dir_entries_from_chain(first_cluster) {
            Ok(e) => e,
            Err(e) => {
                return Err(e);
            },
        };
        let mut sets = entry_sets(ents.as_slice());
        let ghost entries = placed_views(sets@);
        let mut out: Vec<FileRecord> = Vec::new();
        let mut k: usize = 0;
        while k < sets.len()
            invariant
                k <= sets.len(),
                entries == placed_views(sets@),
                record_views(out@) == records_only(entries.take(k as int)),
            decreases sets.len() - k,
        {
            let ghost before = record_views(out@);
            let fr = sets[k].1.clone();
            out.push(fr);
            proof {
                assert(record_views(out@) =~= before.push(fr@));
                assert(entries.take(k + 1) =~= entries.take(k as int).push(entries[k as int]));
                assert(records_only(entries.take(k + 1)) =~= records_only(
                    entries.take(k as int),
                ).push(entries[k as int].1));
            }
            k += 1;
        }
        assert(entries.take(sets.len() as int) =~= entries);
        Ok(out)
    }
    /// Reads the contents of the file that `fr` describes.
    pub fn read_file(&mut self, fr: &FileRecord) -> (r: Result<Vec<u8>, FsError>)
        requires
            old(self).boot().valid(),
        ensures
            final(self).after_reads(old(self)),
            agrees(
                old(self).dependable(),
                bytes_result(r),
                read_or_fail(
                    file_bytes(old(self).image(), old(self).boot(), fr.first_cluster, fr.size),
                ),
            ),
            r matches Ok(v) ==> v@.len() <= fr.size,
            names_no_cluster(fr.first_cluster) ==> (r matches Ok(v) && v@.len() == 0),
    {
        proof {
            self.bpb.lemma_valid_geometry();
        }
        let ghost image = self.image();
        let ghost bpb = self.bpb;
        let size = fr.size;
        let limit = self.chain_limit_for(size);
        let walked = {
            let mut fat = Fat::new(&self.bpb, &mut self.io);
            fat.walk_chain(fr.first_cluster, limit)
        };
        let clusters = match walked {
            Ok(c) => c,
            Err(e) => {
                return Err(FsError::from(e));
            },
        };
        let ghost total = gathered(image, bpb, clusters@, 0, Seq::empty(), size as int);
        let mut out: Vec<u8> = Vec::new();
        let mut j: usize = 0;
        while j < clusters.len()
            invariant_except_break
                total == gathered(image, bpb, clusters@, j as int, out@, size as int),
            invariant
                j <= clusters.len(),
                self.after_reads(old(self)),
                self.boot().valid(),
                image == self.image(),
                bpb == self.bpb,
                size == fr.size,
                limit == file_chain_limit(size, bpb.spec_bytes_per_cluster()),
                chain(image, bpb.spec_fat_start_byte(), fr.first_cluster, limit as nat) == Some(
                    clusters@,
                ),
                total == gathered(image, bpb, clusters@, 0, Seq::empty(), size as int),
                forall|i: int|
                    0 <= i < clusters@.len() ==> FIRST_CLUSTER <= #[trigger] clusters@[i]
                        < CLUSTER_LIMIT,
            ensures
                total == Some(out@),
            decreases clusters.len() - j,
        {
            let cl = clusters[j];
            let mut buf = match self.read_cluster(cl) {
                Ok(b) => b,
                Err(e) => {
                    return Err(e);
                },
            };
            out.append(&mut buf);
            if out.len() as u64 >= size {
                break;
            }
            j += 1;
        }
        if out.len() as u64 > size {
            out.truncate(size as usize);
        }
        Ok(out)
    }

    /// Reads the file at `path`. Components are separated by `/`; empty ones
    /// are passed over. Names match without regard to the case of ASCII
    /// letters, and the first entry of a directory that matches is taken.
    pub fn read_path(&mut self, path: &str) -> (r: Result<Vec<u8>, FsError>)
        requires
            old(self).boot().valid(),
        ensures
            final(self).after_reads(old(self)),
            agrees(
                old(self).dependable(),
                bytes_result(r),
                path_bytes(old(self).image(), old(self).boot(), path@),
            ),
            components(path@).len() == 0 ==> (r matches Err(e) && e@ == Failure::NotAFile("/"@)),
    {
        let ghost image = self.image();
        let ghost bpb = self.bpb;
        let parts = split_path(path);
        let ghost names = part_views(parts@);
        if parts.len() == 0 {
            return Err(FsError::NotAFile(String::from_str("/")));
        }
        let mut cur_dir = self.bpb.root_dir_first_cluster;
        let mut idx: usize = 0;
        loop
            invariant
                idx < parts.len(),
                components(path@).len() != 0,
                names == part_views(parts@),
                self.after_reads(old(self)),
                self.boot().valid(),
                image == self.image(),
                bpb == self.bpb,
                path_bytes(image, bpb, path@) == resolved(image, bpb, cur_dir, names, idx as int),
            decreases parts.len() - idx,
        {
            let comp: &str = parts[idx];
            assert(names[idx as int] == comp@);
            let entries = match self.list_dir(cur_dir) {
                Ok(e) => e,
                Err(e) => {
                    return Err(e);
                },
            };
            let ghost listed = record_views(entries@);
            let mut found: Option<FileRecord> = None;
            let mut k: usize = 0;
            while k < entries.len()
                invariant_except_break
                    found is None,
                    first_match(listed, comp@, 0) == first_match(listed, comp@, k as int),
                invariant
                    k <= entries.len(),
                    listed == record_views(entries@),
                ensures
                    match found {
                        Some(fr) => first_match(listed, comp@, 0) == Some(fr@),
                        None => first_match(listed, comp@, 0) is None,
                    },
                decreases entries.len() - k,
            {
                assert(listed[k as int] == entries@[k as int]@);
                if eq_ignore_ascii_case(entries[k].name.as_str(), comp) {
                    found = Some(entries[k].clone());
                    break;
                }
                k += 1;
            }
            match found {
                Some(fr) => {
                    if idx == parts.len() - 1 {
                        if fr.is_dir() {
                            return Err(FsError::NotAFile(fr.name));
                        }
                        return self.read_file(&fr);
                    } else {
                        cur_dir = fr.first_cluster;
                        idx += 1;
                    }
                },
                None => {
                    return Err(FsError::NotFound(String::from_str(comp)));
                },
            }
        }
    }
    /// Where the handle is in order, the slot that the lookup table gives
    /// for an identifier is the one that `slot_of` finds.
    proof fn lemma_lookup(&self, ino: u64)
        requires
            self.index_wf(),
        ensures
            distinct_inodes(self.index()),
            self.index().len() == self.arena@.len(),
            slot_of(self.index(), ino) == (if self.lookup@.contains_key(ino) {
                Some(self.lookup@[ino] as int)
            } else {
                None
            }),
    {
        let index = self.index();
        lemma_slot_of(index, ino);
        assert forall|i: int| 0 <= i < index.len() implies #[trigger] index[i].inode
            == self.arena@[i].inode by {}
        assert forall|i: int, j: int|
            0 <= i < index.len() && 0 <= j < index.len() && i != j implies index[i].inode
            != index[j].inode by {
            assert(self.lookup@[self.arena@[i].inode] == i);
            assert(self.lookup@[self.arena@[j].inode] == j);
        }
        if self.lookup@.contains_key(ino) {
            let k = self.lookup@[ino] as int;
            assert(index[k].inode == ino);
            match slot_of(index, ino) {
                Some(j) => {
                    assert(self.lookup@[self.arena@[j].inode] == j);
                },
                None => {},
            }
        } else {
            match slot_of(index, ino) {
                Some(j) => {
                    assert(self.lookup@.contains_key(self.arena@[j].inode));
                },
                None => {},
            }
        }
    }

    /// Puts one entry into the index.
    fn put_entry(&mut self, e: IndexEntry)
        requires
            old(self).index_wf(),
            !old(self).index_built(),
        ensures
            final(self).index_wf(),
            !final(self).index_built(),
            final(self).same_volume(old(self)),
            final(self).index() == put(old(self).index(), e@),
    {
        proof {
            self.lemma_lookup(e.inode);
        }
        let ghost before = self.index();
        let ghost view = e@;
        let found: Option<usize> = match self.lookup.get(&e.inode) {
            Some(slot) => Some(*slot),
            None => None,
        };
        match found {
            Some(slot) => {
                self.arena.set(slot, e);
                assert(self.index() =~= before.update(slot as int, view));
            },
            None => {
                let slot = self.arena.len();
                self.lookup.insert(e.inode, slot);
                self.arena.push(e);
                assert(self.index() =~= before.push(view));
            },
        }
    }

    /// Builds the index of identifiers, unless it has been built: a
    /// traversal from the root directory that enters each directory once.
    pub fn ensure_index(&mut self) -> (r: Result<(), FsError>)
        requires
            old(self).wf(),
        ensures
            final(self).wf(),
            final(self).same_volume(old(self)),
            final(self).index_built() == (r is Ok),
            agrees(
                old(self).dependable(),
                match r {
                    Ok(_) => Ok(final(self).index()),
                    Err(e) => Err(e@),
                },
                read_or_fail(volume_index(old(self).image(), old(self).boot())),
            ),
            old(self).index_built() ==> r is Ok && final(self).index() == old(self).index(),
    {
        if self.index_built {
            return Ok(());
        }
        let ghost image = self.image();
        let ghost bpb = self.bpb;
        let ghost target = volume_index(image, bpb);
        self.arena.clear();
        self.lookup.clear();
        let root = self.bpb.root_dir_first_cluster;
        let mut stack: Vec<u32> = Vec::new();
        stack.push(root);
        let mut visited: HashSet<u32> = HashSet::new();
        proof {
            assert(self.index() =~= Seq::empty());
            assert(stack@ =~= seq![root]);
        }
        while stack.len() > 0
            invariant
                self.boot().valid(),
                self.index_wf(),
                !self.index_built,
                !old(self).index_built(),
                self.same_volume(old(self)),
                image == self.image(),
                bpb == self.bpb,
                target == volume_index(image, bpb),
                visited@.finite(),
                target == traverse(image, bpb, stack@, visited@, self.index()),
            decreases unvisited(visited@), stack.len(),
        {
            let ghost stack_before = stack@;
            let dir = stack.pop().unwrap();
            assert(stack@ =~= stack_before.drop_last());
            if !visited.contains(&dir) {
                proof {
                    lemma_unvisited_room(visited@, dir);
                }
                visited.insert(dir);
                let ents = match self.read_dir_entries_from_chain(dir) {
                    Ok(e) => e,
                    Err(e) => {
                        self.arena.clear();
                        self.lookup.clear();
                        assert(self.index() =~= Seq::empty());
                        return Err(e);
                    },
                };
                let sets = entry_sets(ents.as_slice());
                let ghost entries = placed_views(sets@);
                let ghost index0 = self.index();
                let ghost stack0 = stack@;
                let mut k: usize = 0;
                proof {
                    assert(entries.take(0) =~= Seq::empty());
                    assert(stack0 + subdirs(entries.take(0)) =~= stack0);
                }
                while k < sets.len()
                    invariant
                        k <= sets.len(),
                        self.boot().valid(),
                        self.index_wf(),
                        !self.index_built,
                        self.same_volume(old(self)),
                        image == self.image(),
                        bpb == self.bpb,
                        entries == placed_views(sets@),
                        self.index() == index_dir(index0, dir, entries.take(k as int)),
                        stack@ == stack0 + subdirs(entries.take(k as int)),
                    decreases sets.len() - k,
                {
                    let pos: usize = sets[k].0;
                    let fr = sets[k].1.clone();
                    let ino: u64 = ((dir as u64) << 32) | (pos as u64);
                    proof {
                        assert(entries[k as int] == (pos as int, fr@));
                        assert(entries.take(k + 1).drop_last() =~= entries.take(k as int));
                        assert(entries.take(k + 1).last() == entries[k as int]);
                    }
                    if fr.is_dir() && fr.first_cluster >= FIRST_CLUSTER {
                        stack.push(fr.first_cluster);
                        assert(stack@ =~= stack0 + subdirs(entries.take(k + 1)));
                    }
                    self.put_entry(IndexEntry { inode: ino, parent: dir, position: pos, record: fr });
                    k += 1;
                }
                assert(entries.take(sets.len() as int) =~= entries);
            }
        }
        self.index_built = true;
        Ok(())
    }

    /// The identifiers that the index holds, in the order of the index.
    /// There are none until the index has been built.
    pub fn inode_numbers(&self) -> (r: Vec<u64>)
        ensures
            r@ == self.index().map_values(|e: Indexed| e.inode),
    {
        let mut out: Vec<u64> = Vec::new();
        let mut k: usize = 0;
        while k < self.arena.len()
            invariant
                k <= self.arena.len(),
                out@ == self.index().take(k as int).map_values(|e: Indexed| e.inode),
            decreases self.arena.len() - k,
        {
            out.push(self.arena[k].inode);
            k += 1;
            assert(out@ =~= self.index().take(k as int).map_values(|e: Indexed| e.inode));
        }
        assert(self.index().take(self.arena.len() as int) =~= self.index());
        out
    }

    /// The inode with identifier `inode_num`.
    pub fn get_inode(&mut self, inode_num: u64) -> (r: Result<ExInode, FsError>)
        requires
            old(self).wf(),
        ensures
            final(self).wf(),
            final(self).same_volume(old(self)),
            agrees(
                old(self).dependable(),
                match r {
                    Ok(inode) => Ok(inode@),
                    Err(e) => Err(e@),
                },
                match volume_index(old(self).image(), old(self).boot()) {
                    Some(index) => inode_lookup(index, inode_num),
                    None => Err(Failure::Io),
                },
            ),
            final(self).index_built() == !(r matches Err(e) && e@ is Io),
            final(self).index_built() ==> volume_index(old(self).image(), old(self).boot())
                == Some(final(self).index()),
            old(self).index_built() ==> final(self).index() == old(self).index() && (match r {
                Ok(inode) => Ok(inode@),
                Err(e) => Err(e@),
            }) == inode_lookup(old(self).index(), inode_num),
    {
        match self.ensure_index() {
            Ok(_) => {},
            Err(e) => {
                return Err(e);
            },
        }
        proof {
            self.lemma_lookup(inode_num);
        }
        match self.lookup.get(&inode_num) {
            Some(slot) => {
                let entry = &self.arena[*slot];
                Ok(ExInode::from_record(inode_num, &entry.record))
            },
            None => {
                let mut m = String::from_str("inode ");
                m.append(dec_string(inode_num).as_str());
                Err(FsError::NotFound(m))
            },
        }
    }

    /// The identifier and the inode that `path` leads to. Within a
    /// directory, the first entry of the index that matches is taken.
    pub fn resolve_path_to_inode_num(&mut self, path: &str) -> (r: Result<(u64, ExInode), FsError>)
        requires
            old(self).wf(),
        ensures
            final(self).wf(),
            final(self).same_volume(old(self)),
            agrees(
                old(self).dependable(),
                match r {
                    Ok(found) => Ok((found.0, found.1@)),
                    Err(e) => Err(e@),
                },
                match volume_index(old(self).image(), old(self).boot()) {
                    Some(index) => path_inode(
                        index,
                        old(self).boot().root_dir_first_cluster,
                        path@,
                    ),
                    None => Err(Failure::Io),
                },
            ),
            final(self).index_built() == !(r matches Err(e) && e@ is Io),
            old(self).index_built() ==> final(self).index() == old(self).index() && (match r {
                Ok(found) => Ok((found.0, found.1@)),
                Err(e) => Err(e@),
            }) == path_inode(old(self).index(), old(self).boot().root_dir_first_cluster, path@),
    {
        match self.ensure_index() {
            Ok(_) => {},
            Err(e) => {
                return Err(e);
            },
        }
        let ghost index = self.index();
        let parts = split_path(path);
        let ghost names = part_views(parts@);
        if parts.len() == 0 {
            return Err(FsError::NotFound(String::from_str("/")));
        }
        let root = self.bpb.root_dir_first_cluster;
        let mut cur_dir = root;
        let mut idx: usize = 0;
        let mut ino: u64 = 0;
        loop
            invariant_except_break
                idx < parts.len(),
                resolved_inode(index, root, names, 0) == resolved_inode(
                    index,
                    cur_dir,
                    names,
                    idx as int,
                ),
            invariant
                names == part_views(parts@),
                names == components(path@),
                parts.len() > 0,
                self.wf(),
                self.index_built,
                self.same_volume(old(self)),
                index == self.index(),
                volume_index(old(self).image(), old(self).boot()) == Some(index),
                old(self).index_built() ==> index == old(self).index(),
                root == self.bpb.root_dir_first_cluster,
                root == old(self).boot().root_dir_first_cluster,
            ensures
                resolved_inode(index, root, names, 0) == Ok::<u64, Failure>(ino),
            decreases parts.len() - idx,
        {
            let comp: &str = parts[idx];
            assert(names[idx as int] == comp@);
            let mut found: Option<(u64, u32)> = None;
            let mut k: usize = 0;
            while k < self.arena.len()
                invariant_except_break
                    found is None,
                    child_match(index, cur_dir, comp@, 0) == child_match(
                        index,
                        cur_dir,
                        comp@,
                        k as int,
                    ),
                invariant
                    k <= self.arena.len(),
                    index == self.index(),
                    index.len() == self.arena@.len(),
                ensures
                    match found {
                        Some(f) => child_match(index, cur_dir, comp@, 0) matches Some(e) && e.inode
                            == f.0 && e.record.first_cluster == f.1,
                        None => child_match(index, cur_dir, comp@, 0) is None,
                    },
                decreases self.arena.len() - k,
            {
                let entry = &self.arena[k];
                assert(index[k as int] == entry@);
                if entry.parent == cur_dir && eq_ignore_ascii_case(entry.record.name.as_str(), comp) {
                    found = Some((entry.inode, entry.record.first_cluster));
                    break;
                }
                k += 1;
            }
            match found {
                Some(f) => {
                    ino = f.0;
                    if idx == parts.len() - 1 {
                        break;
                    }
                    cur_dir = f.1;
                    idx += 1;
                },
                None => {
                    return Err(FsError::NotFound(String::from_str(comp)));
                },
            }
        }
        match self.get_inode(ino) {
            Ok(inode) => Ok((ino, inode)),
            Err(e) => Err(e),
        }
    }

    /// Lists the directory that `inode` stands for, from the index, sorted
    /// by name; entries of one name keep the order of the index.
    pub fn list_dir_inode(&mut self, inode: &ExInode) -> (r: Result<Vec<CompatDirEntry>, FsError>)
        requires
            old(self).wf(),
        ensures
            final(self).wf(),
            final(self).same_volume(old(self)),
            final(self).index_built() == !(r matches Err(e) && e@ is Io),
            match r {
                Ok(v) => volume_index(old(self).image(), old(self).boot()) matches Some(index)
                    && inode@.is_dir() && is_stable_sort(
                    children(index, inode.first_cluster),
                    compat_views(v@),
                ),
                Err(e) => if e@ is Io {
                    !old(self).dependable() || volume_index(
                        old(self).image(),
                        old(self).boot(),
                    ) is None
                } else {
                    volume_index(old(self).image(), old(self).boot()) is Some && !inode@.is_dir()
                        && e@ == Failure::NotFound("not a directory"@)
                },
            },
            old(self).index_built() ==> final(self).index() == old(self).index() && (if inode@.is_dir() {
                r matches Ok(v) && is_stable_sort(
                    children(old(self).index(), inode.first_cluster),
                    compat_views(v@),
                )
            } else {
                r matches Err(e) && e@ == Failure::NotFound("not a directory"@)
            }),
    {
        match self.ensure_index() {
            Ok(_) => {},
            Err(e) => {
                return Err(e);
            },
        }
        if !inode.is_dir() {
            return Err(FsError::NotFound(String::from_str("not a directory")));
        }
        let ghost index = self.index();
        let mut out: Vec<CompatDirEntry> = Vec::new();
        let mut k: usize = 0;
        proof {
            assert(index.take(0) =~= Seq::empty());
            assert(compat_views(out@) =~= Seq::empty());
        }
        while k < self.arena.len()
            invariant
                k <= self.arena.len(),
                index == self.index(),
                index.len() == self.arena@.len(),
                compat_views(out@) == children(index.take(k as int), inode.first_cluster),
            decreases self.arena.len() - k,
        {
            let entry = &self.arena[k];
            proof {
                assert(index[k as int] == entry@);
                assert(index.take(k + 1).drop_last() =~= index.take(k as int));
                assert(index.take(k + 1).last() == index[k as int]);
            }
            if entry.parent == inode.first_cluster {
                let ghost before = compat_views(out@);
                let item = CompatDirEntry::from_name_inode(
                    entry.record.name.as_str(),
                    entry.inode,
                    entry.record.is_dir(),
                );
                out.push(item);
                assert(compat_views(out@) =~= before.push(item@));
            }
            k += 1;
        }
        assert(index.take(self.arena.len() as int) =~= index);
        sort_by_name(&mut out);
        Ok(out)
    }

    /// Reads the contents of the file that `inode` stands for, as the index
    /// holds it under the identifier of `inode`.
    pub fn read_inode(&mut self, inode: &ExInode) -> (r: Result<Vec<u8>, FsError>)
        requires
            old(self).wf(),
        ensures
            final(self).wf(),
            final(self).same_volume(old(self)),
            agrees(
                old(self).dependable(),
                bytes_result(r),
                match volume_index(old(self).image(), old(self).boot()) {
                    Some(index) => inode_bytes(
                        old(self).image(),
                        old(self).boot(),
                        index,
                        inode.i_num,
                    ),
                    None => Err(Failure::Io),
                },
            ),
            old(self).index_built() ==> final(self).index() == old(self).index(),
            old(self).index_built() && inode_needs_no_read(old(self).index(), inode.i_num)
                ==> bytes_result(r) == inode_bytes(
                old(self).image(),
                old(self).boot(),
                old(self).index(),
                inode.i_num,
            ),
    {
        match self.ensure_index() {
            Ok(_) => {},
            Err(e) => {
                return Err(e);
            },
        }
        proof {
            self.lemma_lookup(inode.i_num);
        }
        let fr = match self.lookup.get(&inode.i_num) {
            Some(slot) => self.arena[*slot].record.clone(),
            None => {
                let mut m = String::from_str("inode ");
                m.append(dec_string(inode.i_num).as_str());
                return Err(FsError::NotFound(m));
            },
        };
        if fr.is_dir() {
            return Err(FsError::NotAFile(fr.name));
        }
        self.read_file(&fr)
    }
}

} // verus!
