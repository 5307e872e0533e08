//! What the bytes of a volume mean: the clusters of a chain, the records of
//! a directory, its entry sets, and the contents of a file.

use crate::bpb::BootSector;
use crate::direntry::{assembled, record_of, EntryType, RawView, RecordView, RECORD_LEN};
use crate::fat::chain;
use crate::fs::Failure;
use crate::path::{
    components, lemma_case_variants, lemma_components_from_case, lowered, same_name, uppered,
};
use crate::source::bytes_at;
use vstd::prelude::*;

verus! {

/// Largest number of clusters that are followed for one directory.
pub const DIR_CHAIN_LIMIT: usize = 1_000_000;

/// Clusters that are followed beyond those that the size of a file asks for.
pub const FILE_CHAIN_SLACK: u64 = 4;

/// The bytes of cluster `c`; `None` where it reaches past the end of the volume.
pub open spec fn cluster_bytes(image: Seq<u8>, bpb: BootSector, c: u32) -> Option<Seq<u8>> {
    bytes_at(image, bpb.spec_cluster_to_byte_offset(c as int), bpb.spec_bytes_per_cluster())
}

/// The bytes of the clusters of `clusters`, one after the other; `None`
/// where one of them reaches past the end of the volume.
pub open spec fn clusters_bytes(image: Seq<u8>, bpb: BootSector, clusters: Seq<u32>) -> Option<
    Seq<u8>,
>
    decreases clusters.len(),
{
    if clusters.len() == 0 {
        Some(Seq::empty())
    } else {
        match (
            clusters_bytes(image, bpb, clusters.drop_last()),
            cluster_bytes(image, bpb, clusters.last()),
        ) {
            (Some(before), Some(last)) => Some(before + last),
            _ => None,
        }
    }
}

/// The 32-byte records that `bytes` holds, in order. Bytes after the last
/// whole record are left out.
pub open spec fn records_of(bytes: Seq<u8>) -> Seq<RawView> {
    Seq::new(
        bytes.len() / RECORD_LEN as nat,
        |i: int| record_of(bytes.subrange(RECORD_LEN * i, RECORD_LEN * i + RECORD_LEN)),
    )
}

/// The records of the directory whose chain starts at `first`; `None` where
/// the chain or one of its clusters reaches past the end of the volume.
pub open spec fn dir_records(image: Seq<u8>, bpb: BootSector, first: u32) -> Option<Seq<RawView>> {
    match chain(image, bpb.spec_fat_start_byte(), first, DIR_CHAIN_LIMIT as nat) {
        None => None,
        Some(clusters) => match clusters_bytes(image, bpb, clusters) {
            None => None,
            Some(bytes) => Some(records_of(bytes)),
        },
    }
}

/// Where the entry set that starts at record `i` ends: after as many
/// secondary records as the file entry announces, or with the last record.
pub open spec fn set_end(records: Seq<RawView>, i: int) -> int {
    let end = i + 1 + records[i].raw[1];
    if end <= records.len() {
        end
    } else {
        records.len() as int
    }
}

/// The files and directories that the records from position `i` on hold,
/// each with the position of its file entry.
///
/// An end record closes the directory. A file entry opens an entry set; a
/// set that does not assemble is left out. Every other record is passed over.
pub open spec fn entries_from(records: Seq<RawView>, i: int) -> Seq<(int, RecordView)>
    decreases records.len() - i,
{
    if i < 0 || i >= records.len() {
        Seq::empty()
    } else {
        match records[i].kind() {
            EntryType::End => Seq::empty(),
            EntryType::File => {
                let end = set_end(records, i);
                match assembled(records.subrange(i, end)) {
                    Some(fr) => seq![(i, fr)] + entries_from(records, end),
                    None => entries_from(records, end),
                }
            },
            _ => entries_from(records, i + 1),
        }
    }
}

/// The files and directories of the directory whose chain starts at
/// `first`, each with the position of its file entry among the records.
pub open spec fn dir_entries(image: Seq<u8>, bpb: BootSector, first: u32) -> Option<
    Seq<(int, RecordView)>,
> {
    match dir_records(image, bpb, first) {
        None => None,
        Some(records) => Some(entries_from(records, 0)),
    }
}

/// The identifier of the entry whose file entry is record `position` of the
/// directory that starts at cluster `dir`: the cluster in the upper 32 bits,
/// the position in the lower ones.
pub open spec fn inode_number(dir: u32, position: int) -> u64 {
    ((dir as u64) << 32) | (position as u64)
}

/// The records of a listing, without their positions.
pub open spec fn records_only(entries: Seq<(int, RecordView)>) -> Seq<RecordView> {
    entries.map_values(|e: (int, RecordView)| e.1)
}

/// The records of a listing of directory `dir`, each with its identifier.
pub open spec fn with_inodes(dir: u32, entries: Seq<(int, RecordView)>) -> Seq<(u64, RecordView)> {
    entries.map_values(|e: (int, RecordView)| (inode_number(dir, e.0), e.1))
}

/// Appending one whole record to bytes that hold whole records appends one
/// record to their records.
pub proof fn lemma_records_push(bytes: Seq<u8>, chunk: Seq<u8>)
    requires
        bytes.len() % RECORD_LEN as nat == 0,
        chunk.len() == RECORD_LEN,
    ensures
        records_of(bytes + chunk) == records_of(bytes).push(record_of(chunk)),
{
    let n = bytes.len() / RECORD_LEN as nat;
    let joined = bytes + chunk;
    assert(joined.len() / RECORD_LEN as nat == n + 1);
    assert forall|i: int| 0 <= i < n + 1 implies #[trigger] records_of(joined)[i] == records_of(
        bytes,
    ).push(record_of(chunk))[i] by {
        if i < n {
            assert(joined.subrange(RECORD_LEN * i, RECORD_LEN * i + RECORD_LEN)
                =~= bytes.subrange(RECORD_LEN * i, RECORD_LEN * i + RECORD_LEN));
        } else {
            assert(joined.subrange(RECORD_LEN * i, RECORD_LEN * i + RECORD_LEN) =~= chunk);
            assert(chunk.subrange(0, RECORD_LEN as int) =~= chunk);
            assert(record_of(joined.subrange(RECORD_LEN * i, RECORD_LEN * i + RECORD_LEN))
                == record_of(chunk));
        }
    }
    assert(records_of(joined) =~= records_of(bytes).push(record_of(chunk)));
}

/// Where the clusters of a chain can all be read, so can those of each
/// stretch that it starts with, and the bytes of the stretch are those that
/// the bytes of the whole chain start with.
pub proof fn lemma_clusters_bytes_prefix(
    image: Seq<u8>,
    bpb: BootSector,
    clusters: Seq<u32>,
    all: Seq<u8>,
    n: int,
)
    requires
        0 <= n <= clusters.len(),
        clusters_bytes(image, bpb, clusters) == Some(all),
    ensures
        clusters_bytes(image, bpb, clusters.take(n)) matches Some(part) && part.len() <= all.len()
            && part == all.take(part.len() as int),
        n < clusters.len() ==> cluster_bytes(image, bpb, clusters[n]) is Some,
    decreases clusters.len(),
{
    if n == clusters.len() {
        assert(clusters.take(n) =~= clusters);
        assert(all.take(all.len() as int) =~= all);
    } else {
        let shorter = clusters.drop_last();
        let before = clusters_bytes(image, bpb, shorter)->0;
        if n == clusters.len() - 1 {
            assert(clusters.take(n) =~= shorter);
            assert(all.take(before.len() as int) =~= before);
        } else {
            lemma_clusters_bytes_prefix(image, bpb, shorter, before, n);
            assert(shorter.take(n) =~= clusters.take(n));
            let part = clusters_bytes(image, bpb, clusters.take(n))->0;
            assert(all.take(part.len() as int) =~= before.take(part.len() as int));
        }
    }
}

/// Number of clusters that are followed for a file of `size` bytes: as many
/// as the size asks for and four more, or as many as the machine can count.
pub open spec fn file_chain_limit(size: u64, bytes_per_cluster: int) -> nat {
    let wanted = size as int / bytes_per_cluster + (if size as int % bytes_per_cluster == 0 {
        0int
    } else {
        1int
    }) + FILE_CHAIN_SLACK;
    if wanted <= usize::MAX {
        wanted as nat
    } else {
        usize::MAX as nat
    }
}

/// The bytes read for a file from the clusters of `clusters`, from position
/// `i` on, after `have`: cluster after cluster until `size` bytes are there
/// or the clusters are used up. `None` where a cluster that is read reaches
/// past the end of the volume.
pub open spec fn gathered(
    image: Seq<u8>,
    bpb: BootSector,
    clusters: Seq<u32>,
    i: int,
    have: Seq<u8>,
    size: int,
) -> Option<Seq<u8>>
    decreases clusters.len() - i,
{
    if i < 0 || i >= clusters.len() {
        Some(have)
    } else {
        match cluster_bytes(image, bpb, clusters[i]) {
            None => None,
            Some(b) => if have.len() + b.len() >= size {
                Some(have + b)
            } else {
                gathered(image, bpb, clusters, i + 1, have + b, size)
            },
        }
    }
}

/// The first `size` bytes of `bytes`, or all of them where they are fewer.
pub open spec fn cut(bytes: Seq<u8>, size: int) -> Seq<u8> {
    if bytes.len() > size {
        bytes.take(size)
    } else {
        bytes
    }
}

/// The contents of the file of `size` bytes whose chain starts at `first`;
/// `None` where a table entry or a cluster that is read reaches past the end
/// of the volume.
pub open spec fn file_bytes(image: Seq<u8>, bpb: BootSector, first: u32, size: u64) -> Option<
    Seq<u8>,
> {
    match chain(
        image,
        bpb.spec_fat_start_byte(),
        first,
        file_chain_limit(size, bpb.spec_bytes_per_cluster()),
    ) {
        None => None,
        Some(clusters) => match gathered(image, bpb, clusters, 0, Seq::empty(), size as int) {
            None => None,
            Some(bytes) => Some(cut(bytes, size as int)),
        },
    }
}

/// The first of `entries`, from position `i` on, whose name is `name` but
/// for the case of ASCII letters.
pub open spec fn first_match(entries: Seq<RecordView>, name: Seq<char>, i: int) -> Option<
    RecordView,
>
    decreases entries.len() - i,
{
    if i < 0 || i >= entries.len() {
        None
    } else if same_name(entries[i].name, name) {
        Some(entries[i])
    } else {
        first_match(entries, name, i + 1)
    }
}

/// What reading the file named by the components `parts[idx..]`, looked up
/// from the directory that starts at cluster `dir`, gives.
pub open spec fn resolved(
    image: Seq<u8>,
    bpb: BootSector,
    dir: u32,
    parts: Seq<Seq<char>>,
    idx: int,
) -> Result<Seq<u8>, Failure>
    decreases parts.len() - idx,
{
    if idx < 0 || idx >= parts.len() {
        Err(Failure::NotFound(Seq::empty()))
    } else {
        match dir_entries(image, bpb, dir) {
            None => Err(Failure::Io),
            Some(entries) => match first_match(records_only(entries), parts[idx], 0) {
                None => Err(Failure::NotFound(parts[idx])),
                Some(fr) => if idx == parts.len() - 1 {
                    if fr.is_dir() {
                        Err(Failure::NotAFile(fr.name))
                    } else {
                        match file_bytes(image, bpb, fr.first_cluster, fr.size) {
                            Some(bytes) => Ok(bytes),
                            None => Err(Failure::Io),
                        }
                    }
                } else {
                    resolved(image, bpb, fr.first_cluster, parts, idx + 1)
                },
            },
        }
    }
}

/// What reading the file at `path` gives: its contents, or the failure at
/// the first component that does not resolve.
pub open spec fn path_bytes(image: Seq<u8>, bpb: BootSector, path: Seq<char>) -> Result<
    Seq<u8>,
    Failure,
> {
    let parts = components(path);
    if parts.len() == 0 {
        Err(Failure::NotAFile("/"@))
    } else {
        resolved(image, bpb, bpb.root_dir_first_cluster, parts, 0)
    }
}

/// What is gathered for a file is a stretch that the bytes of its whole
/// chain start with: one of at least `size` bytes, or all of them.
pub proof fn lemma_gathered(
    image: Seq<u8>,
    bpb: BootSector,
    clusters: Seq<u32>,
    all: Seq<u8>,
    i: int,
    have: Seq<u8>,
    size: int,
)
    requires
        0 <= i <= clusters.len(),
        clusters_bytes(image, bpb, clusters) == Some(all),
        clusters_bytes(image, bpb, clusters.take(i)) == Some(have),
    ensures
        gathered(image, bpb, clusters, i, have, size) matches Some(g) && g.len() <= all.len() && g
            == all.take(g.len() as int) && (g.len() >= size || g == all),
    decreases clusters.len() - i,
{
    lemma_clusters_bytes_prefix(image, bpb, clusters, all, i);
    if i >= clusters.len() {
        assert(clusters.take(i) =~= clusters);
    } else {
        let b = cluster_bytes(image, bpb, clusters[i])->0;
        assert(clusters.take(i + 1).drop_last() =~= clusters.take(i));
        assert(clusters.take(i + 1).last() == clusters[i]);
        lemma_clusters_bytes_prefix(image, bpb, clusters, all, i + 1);
        if have.len() + b.len() < size {
            lemma_gathered(image, bpb, clusters, all, i + 1, have + b, size);
        }
    }
}

/// A file whose chain can be read whole and holds at least as many bytes as
/// the size of the file has exactly that many bytes: those that the
/// clusters of its chain, one after the other, start with.
pub proof fn lemma_file_bytes(
    image: Seq<u8>,
    bpb: BootSector,
    first: u32,
    size: u64,
    clusters: Seq<u32>,
    all: Seq<u8>,
)
    requires
        chain(
            image,
            bpb.spec_fat_start_byte(),
            first,
            file_chain_limit(size, bpb.spec_bytes_per_cluster()),
        ) == Some(clusters),
        clusters_bytes(image, bpb, clusters) == Some(all),
        all.len() >= size,
    ensures
        file_bytes(image, bpb, first, size) == Some(all.take(size as int)),
        all.take(size as int).len() == size,
{
    assert(clusters.take(0) =~= Seq::<u32>::empty());
    lemma_gathered(image, bpb, clusters, all, 0, Seq::empty(), size as int);
    let g = gathered(image, bpb, clusters, 0, Seq::empty(), size as int)->0;
    assert(cut(g, size as int) =~= all.take(size as int));
}

/// Whether two outcomes of reading a path are the same, where the text of a
/// component that was not found may differ in the case of its letters.
pub open spec fn alike(x: Result<Seq<u8>, Failure>, y: Result<Seq<u8>, Failure>) -> bool {
    match x {
        Err(Failure::NotFound(a)) => y matches Err(Failure::NotFound(b)) && same_name(a, b),
        _ => x == y,
    }
}

/// Names that are the same but for case match the same entry.
pub proof fn lemma_first_match_case(entries: Seq<RecordView>, a: Seq<char>, b: Seq<char>, i: int)
    requires
        same_name(a, b),
    ensures
        first_match(entries, a, i) == first_match(entries, b, i),
    decreases entries.len() - i,
{
    if 0 <= i < entries.len() {
        lemma_first_match_case(entries, a, b, i + 1);
    }
}

/// Components that are the same but for case, one by one, resolve alike.
pub proof fn lemma_resolved_case(
    image: Seq<u8>,
    bpb: BootSector,
    dir: u32,
    ps: Seq<Seq<char>>,
    qs: Seq<Seq<char>>,
    idx: int,
)
    requires
        ps.len() == qs.len(),
        forall|k: int| 0 <= k < ps.len() ==> same_name(#[trigger] ps[k], qs[k]),
    ensures
        alike(resolved(image, bpb, dir, ps, idx), resolved(image, bpb, dir, qs, idx)),
    decreases ps.len() - idx,
{
    if 0 <= idx < ps.len() {
        assert(same_name(ps[idx], qs[idx]));
        match dir_entries(image, bpb, dir) {
            None => {},
            Some(entries) => {
                lemma_first_match_case(records_only(entries), ps[idx], qs[idx], 0);
                match first_match(records_only(entries), ps[idx], 0) {
                    None => {},
                    Some(fr) => {
                        if idx != ps.len() - 1 {
                            lemma_resolved_case(image, bpb, fr.first_cluster, ps, qs, idx + 1);
                        }
                    },
                }
            },
        }
    }
}

/// Paths that are the same but for the case of ASCII letters read alike:
/// the same contents or the same failure.
pub proof fn lemma_path_bytes_case(image: Seq<u8>, bpb: BootSector, p: Seq<char>, q: Seq<char>)
    requires
        same_name(p, q),
    ensures
        alike(path_bytes(image, bpb, p), path_bytes(image, bpb, q)),
{
    lemma_components_from_case(p, q, 0, 0);
    lemma_resolved_case(
        image,
        bpb,
        bpb.root_dir_first_cluster,
        components(p),
        components(q),
        0,
    );
}

/// Reading a path, its upper-case form and its lower-case form gives the
/// same contents or the same failure.
pub proof fn lemma_read_path_ignores_case(image: Seq<u8>, bpb: BootSector, p: Seq<char>)
    ensures
        alike(path_bytes(image, bpb, p), path_bytes(image, bpb, uppered(p))),
        alike(path_bytes(image, bpb, p), path_bytes(image, bpb, lowered(p))),
        path_bytes(image, bpb, p) is Ok ==> path_bytes(image, bpb, uppered(p)) == path_bytes(
            image,
            bpb,
            p,
        ) && path_bytes(image, bpb, lowered(p)) == path_bytes(image, bpb, p),
{
    lemma_case_variants(p);
    lemma_path_bytes_case(image, bpb, p, uppered(p));
    lemma_path_bytes_case(image, bpb, p, lowered(p));
}

/// The entries of a listing stand at places of the records, from the place
/// where the listing starts on, each at a later place than the one before.
pub proof fn lemma_entries_from_positions(records: Seq<RawView>, i: int)
    requires
        0 <= i,
    ensures
        forall|k: int|
            0 <= k < entries_from(records, i).len() ==> i <= (#[trigger] entries_from(
                records,
                i,
            )[k]).0 < records.len(),
        forall|a: int, b: int|
            0 <= a < b < entries_from(records, i).len() ==> entries_from(records, i)[a].0
                < entries_from(records, i)[b].0,
    decreases records.len() - i,
{
    let all = entries_from(records, i);
    if i < records.len() {
        match records[i].kind() {
            EntryType::End => {},
            EntryType::File => {
                let end = set_end(records, i);
                lemma_entries_from_positions(records, end);
                let rest = entries_from(records, end);
                match assembled(records.subrange(i, end)) {
                    Some(fr) => {
                        assert(all == seq![(i, fr)] + rest);
                        assert forall|k: int| 0 <= k < all.len() implies i <= (#[trigger] all[k]).0
                            < records.len() by {
                            if k > 0 {
                                assert(all[k] == rest[k - 1]);
                                assert(end <= rest[k - 1].0);
                            }
                        }
                        assert forall|a: int, b: int| 0 <= a < b < all.len() implies all[a].0
                            < all[b].0 by {
                            assert(all[b] == rest[b - 1]);
                            assert(end <= rest[b - 1].0);
                            if a > 0 {
                                assert(all[a] == rest[a - 1]);
                            }
                        }
                    },
                    None => {
                        assert(all == rest);
                        assert forall|k: int| 0 <= k < all.len() implies i <= (#[trigger] all[k]).0
                            < records.len() by {
                            assert(end <= rest[k].0);
                        }
                    },
                }
            },
            _ => {
                lemma_entries_from_positions(records, i + 1);
                let rest = entries_from(records, i + 1);
                assert(all == rest);
                assert forall|k: int| 0 <= k < all.len() implies i <= (#[trigger] all[k]).0
                    < records.len() by {
                    assert(i + 1 <= rest[k].0);
                }
            },
        }
    }
}

} // verus!
