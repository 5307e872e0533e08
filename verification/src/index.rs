//! The index of identifiers: every file and directory that can be reached
//! from the root, found by a traversal of the directory tree.

use crate::bpb::BootSector;
use crate::compat::{compat_of, CompatView};
use crate::direntry::RecordView;
use crate::exinode::{inode_of, InodeView};
use crate::fat::{names_no_cluster, FIRST_CLUSTER};
use crate::fs::{Failure, Indexed};
use crate::path::{components, same_name};
use crate::text::dec_text;
use crate::volume::{
    dir_entries, dir_records, file_bytes, inode_number, lemma_entries_from_positions, with_inodes,
};
use vstd::prelude::*;

verus! {

/// Number of cluster numbers: a traversal enters at most one directory for each.
pub const CLUSTER_NUMBERS: u64 = 0x1_0000_0000;

/// The slot of `index` that holds the identifier `ino`: the last one, where
/// there are several.
pub open spec fn slot_of(index: Seq<Indexed>, ino: u64) -> Option<int>
    decreases index.len(),
{
    if index.len() == 0 {
        None
    } else if index.last().inode == ino {
        Some(index.len() - 1)
    } else {
        slot_of(index.drop_last(), ino)
    }
}

/// Whether no identifier stands in two slots of `index`.
pub open spec fn distinct_inodes(index: Seq<Indexed>) -> bool {
    forall|i: int, j: int|
        0 <= i < index.len() && 0 <= j < index.len() && i != j ==> index[i].inode
            != index[j].inode
}

/// `index` with the entry `e` put in: in the slot that holds its identifier,
/// or in a new slot at the end.
pub open spec fn put(index: Seq<Indexed>, e: Indexed) -> Seq<Indexed> {
    match slot_of(index, e.inode) {
        Some(k) => index.update(k, e),
        None => index.push(e),
    }
}

/// The index entry for an entry of the listing of directory `dir`.
pub open spec fn indexed(dir: u32, entry: (int, RecordView)) -> Indexed {
    Indexed {
        inode: inode_number(dir, entry.0),
        parent: dir,
        position: entry.0,
        record: entry.1,
    }
}

/// `index` with the entries of the listing of directory `dir` put in, in order.
pub open spec fn index_dir(index: Seq<Indexed>, dir: u32, entries: Seq<(int, RecordView)>) -> Seq<
    Indexed,
>
    decreases entries.len(),
{
    if entries.len() == 0 {
        index
    } else {
        put(index_dir(index, dir, entries.drop_last()), indexed(dir, entries.last()))
    }
}

/// The first clusters of the directories among `entries`, in order. A
/// directory whose first cluster names no cluster is left out.
pub open spec fn subdirs(entries: Seq<(int, RecordView)>) -> Seq<u32>
    decreases entries.len(),
{
    if entries.len() == 0 {
        Seq::empty()
    } else {
        let before = subdirs(entries.drop_last());
        let fr = entries.last().1;
        if fr.is_dir() && fr.first_cluster >= FIRST_CLUSTER {
            before.push(fr.first_cluster)
        } else {
            before
        }
    }
}

/// Number of cluster numbers that are not in `visited`.
pub open spec fn unvisited(visited: Set<u32>) -> nat {
    (CLUSTER_NUMBERS - visited.len()) as nat
}

/// The index after the traversal has gone on from `stack`: the directory on
/// top is taken off; one that was entered before is passed over; a new one
/// is listed, its entries are put in, and its directories go on the stack.
/// `None` where a directory cannot be read.
pub open spec fn traverse(
    image: Seq<u8>,
    bpb: BootSector,
    stack: Seq<u32>,
    visited: Set<u32>,
    index: Seq<Indexed>,
) -> Option<Seq<Indexed>>
    decreases unvisited(visited), stack.len(),
    when visited.finite()
    via traverse_decreases
{
    if stack.len() == 0 {
        Some(index)
    } else {
        let dir = stack.last();
        let rest = stack.drop_last();
        if visited.contains(dir) {
            traverse(image, bpb, rest, visited, index)
        } else {
            match dir_entries(image, bpb, dir) {
                None => None,
                Some(entries) => traverse(
                    image,
                    bpb,
                    rest + subdirs(entries),
                    visited.insert(dir),
                    index_dir(index, dir, entries),
                ),
            }
        }
    }
}

#[via_fn]
proof fn traverse_decreases(
    image: Seq<u8>,
    bpb: BootSector,
    stack: Seq<u32>,
    visited: Set<u32>,
    index: Seq<Indexed>,
) {
    if stack.len() != 0 && !visited.contains(stack.last()) {
        lemma_unvisited_room(visited, stack.last());
    }
}

/// A set of cluster numbers that leaves one out holds fewer than there are
/// cluster numbers, and entering the one that is left out leaves fewer
/// unvisited.
pub proof fn lemma_unvisited_room(visited: Set<u32>, dir: u32)
    requires
        visited.finite(),
        !visited.contains(dir),
    ensures
        visited.len() < CLUSTER_NUMBERS,
        visited.insert(dir).finite(),
        unvisited(visited.insert(dir)) + 1 == unvisited(visited),
{
    let below_max = Set::<u32>::new(|i: u32| 0 <= i < u32::MAX);
    vstd::set_lib::range_set_properties::<u32>(0, u32::MAX);
    assert(below_max == <u32 as vstd::set_lib::FiniteRange>::range_set(0, u32::MAX));
    assert(below_max.len() == u32::MAX);
    let others = below_max.insert(u32::MAX).remove(dir);
    assert(others.len() == u32::MAX);
    assert(visited.subset_of(others));
    vstd::set_lib::lemma_len_subset(visited, others);
}

/// The index of the volume: what the traversal from the root directory finds.
pub open spec fn volume_index(image: Seq<u8>, bpb: BootSector) -> Option<Seq<Indexed>> {
    traverse(image, bpb, seq![bpb.root_dir_first_cluster], Set::empty(), Seq::empty())
}

/// The inode with identifier `ino`, looked up in `index`.
pub open spec fn inode_lookup(index: Seq<Indexed>, ino: u64) -> Result<InodeView, Failure> {
    match slot_of(index, ino) {
        Some(k) => Ok(inode_of(ino, index[k].record)),
        None => Err(Failure::NotFound("inode "@ + dec_text(ino as nat))),
    }
}

/// The first entry of `index`, from slot `i` on, that lies in the directory
/// `parent` and whose name is `name` but for the case of ASCII letters.
pub open spec fn child_match(index: Seq<Indexed>, parent: u32, name: Seq<char>, i: int) -> Option<
    Indexed,
>
    decreases index.len() - i,
{
    if i < 0 || i >= index.len() {
        None
    } else if index[i].parent == parent && same_name(index[i].record.name, name) {
        Some(index[i])
    } else {
        child_match(index, parent, name, i + 1)
    }
}

/// The identifier that the components `parts[idx..]` lead to, looked up
/// from the directory that starts at cluster `dir`.
pub open spec fn resolved_inode(index: Seq<Indexed>, dir: u32, parts: Seq<Seq<char>>, idx: int) -> Result<
    u64,
    Failure,
>
    decreases parts.len() - idx,
{
    if idx < 0 || idx >= parts.len() {
        Err(Failure::NotFound(Seq::empty()))
    } else {
        match child_match(index, dir, parts[idx], 0) {
            None => Err(Failure::NotFound(parts[idx])),
            Some(e) => if idx == parts.len() - 1 {
                Ok(e.inode)
            } else {
                resolved_inode(index, e.record.first_cluster, parts, idx + 1)
            },
        }
    }
}

/// The identifier and the inode that `path` leads to from the directory
/// that starts at cluster `root`.
pub open spec fn path_inode(index: Seq<Indexed>, root: u32, path: Seq<char>) -> Result<
    (u64, InodeView),
    Failure,
> {
    let parts = components(path);
    if parts.len() == 0 {
        Err(Failure::NotFound("/"@))
    } else {
        match resolved_inode(index, root, parts, 0) {
            Err(e) => Err(e),
            Ok(ino) => match inode_lookup(index, ino) {
                Ok(inode) => Ok((ino, inode)),
                Err(e) => Err(e),
            },
        }
    }
}

/// The entries of `index` that lie in the directory `parent`, in the order
/// of the index, in the shape of directory entries.
pub open spec fn children(index: Seq<Indexed>, parent: u32) -> Seq<CompatView>
    decreases index.len(),
{
    if index.len() == 0 {
        Seq::empty()
    } else {
        let before = children(index.drop_last(), parent);
        let e = index.last();
        if e.parent == parent {
            before.push(compat_of(e.record.name, e.inode, e.record.is_dir()))
        } else {
            before
        }
    }
}

/// Whether reading the contents of the inode with identifier `ino` needs no
/// byte of the volume: the index holds no such inode, or it is a directory,
/// or its first cluster names no cluster.
pub open spec fn inode_needs_no_read(index: Seq<Indexed>, ino: u64) -> bool {
    match slot_of(index, ino) {
        None => true,
        Some(k) => index[k].record.is_dir() || names_no_cluster(index[k].record.first_cluster),
    }
}

/// What reading the contents of the inode with identifier `ino` gives.
pub open spec fn inode_bytes(image: Seq<u8>, bpb: BootSector, index: Seq<Indexed>, ino: u64) -> Result<
    Seq<u8>,
    Failure,
> {
    match slot_of(index, ino) {
        None => Err(Failure::NotFound("inode "@ + dec_text(ino as nat))),
        Some(k) => {
            let fr = index[k].record;
            if fr.is_dir() {
                Err(Failure::NotAFile(fr.name))
            } else {
                match file_bytes(image, bpb, fr.first_cluster, fr.size) {
                    Some(bytes) => Ok(bytes),
                    None => Err(Failure::Io),
                }
            }
        },
    }
}

/// What `slot_of` finds holds the identifier, and no later slot does; where
/// it finds nothing, no slot does.
pub proof fn lemma_slot_of(index: Seq<Indexed>, ino: u64)
    ensures
        match slot_of(index, ino) {
            Some(k) => 0 <= k < index.len() && index[k].inode == ino && forall|j: int|
                k < j < index.len() ==> index[j].inode != ino,
            None => forall|j: int| 0 <= j < index.len() ==> index[j].inode != ino,
        },
    decreases index.len(),
{
    if index.len() != 0 && index.last().inode != ino {
        lemma_slot_of(index.drop_last(), ino);
        let shorter = index.drop_last();
        match slot_of(shorter, ino) {
            Some(k) => {
                assert(shorter[k] == index[k]);
                assert forall|j: int| k < j < index.len() implies index[j].inode != ino by {
                    if j < shorter.len() {
                        assert(shorter[j] == index[j]);
                    }
                }
            },
            None => {
                assert forall|j: int| 0 <= j < index.len() implies index[j].inode != ino by {
                    if j < shorter.len() {
                        assert(shorter[j] == index[j]);
                    }
                }
            },
        }
    }
}

/// Putting an entry in keeps the identifiers of the index distinct, and the
/// entry is then found under its identifier.
pub proof fn lemma_put(index: Seq<Indexed>, e: Indexed)
    requires
        distinct_inodes(index),
    ensures
        distinct_inodes(put(index, e)),
        slot_of(put(index, e), e.inode) matches Some(k) && put(index, e)[k] == e,
        index.len() <= put(index, e).len() <= index.len() + 1,
{
    lemma_slot_of(index, e.inode);
    let after = put(index, e);
    lemma_slot_of(after, e.inode);
    match slot_of(index, e.inode) {
        Some(k) => {
            assert(after[k].inode == e.inode);
        },
        None => {
            assert(after[index.len() as int].inode == e.inode);
        },
    }
}

/// Whether the index entry `e` is an entry of the listing of its directory,
/// under the identifier that the listing gives it.
pub open spec fn from_listing(image: Seq<u8>, bpb: BootSector, e: Indexed) -> bool {
    &&& e.inode == inode_number(e.parent, e.position)
    &&& dir_entries(image, bpb, e.parent) matches Some(entries) && exists|j: int|
        0 <= j < entries.len() && #[trigger] entries[j] == (e.position, e.record)
}

/// Whether every entry of `index` is an entry of the listing of its directory.
pub open spec fn all_from_listings(image: Seq<u8>, bpb: BootSector, index: Seq<Indexed>) -> bool {
    forall|k: int| 0 <= k < index.len() ==> from_listing(image, bpb, #[trigger] index[k])
}

/// Whether `index` holds the identifier `ino`.
pub open spec fn has_inode(index: Seq<Indexed>, ino: u64) -> bool {
    slot_of(index, ino) is Some
}

/// Two entries with positions below 2^32 have one identifier only where
/// they lie at one position of one directory.
pub proof fn lemma_inode_number_injective(dir1: u32, pos1: int, dir2: u32, pos2: int)
    requires
        0 <= pos1 < 0x1_0000_0000,
        0 <= pos2 < 0x1_0000_0000,
        inode_number(dir1, pos1) == inode_number(dir2, pos2),
    ensures
        dir1 == dir2,
        pos1 == pos2,
{
    let a = pos1 as u64;
    let b = pos2 as u64;
    assert(dir1 == dir2 && a == b) by (bit_vector)
        requires
            a < 0x1_0000_0000,
            b < 0x1_0000_0000,
            ((dir1 as u64) << 32) | a == ((dir2 as u64) << 32) | b,
    ;
}

/// An index holds an identifier exactly where one of its slots does.
pub proof fn lemma_has_inode(index: Seq<Indexed>, ino: u64, j: int)
    requires
        0 <= j < index.len(),
        index[j].inode == ino,
    ensures
        has_inode(index, ino),
{
    lemma_slot_of(index, ino);
}

/// Putting an entry in keeps every identifier that the index held, and the
/// index then holds that of the entry. Entries that come from listings stay
/// such where the new one does.
pub proof fn lemma_put_keeps(image: Seq<u8>, bpb: BootSector, index: Seq<Indexed>, e: Indexed)
    ensures
        has_inode(put(index, e), e.inode),
        forall|ino: u64| has_inode(index, ino) ==> #[trigger] has_inode(put(index, e), ino),
        all_from_listings(image, bpb, index) && from_listing(image, bpb, e) ==> all_from_listings(
            image,
            bpb,
            put(index, e),
        ),
        distinct_inodes(index) ==> distinct_inodes(put(index, e)),
{
    let after = put(index, e);
    if distinct_inodes(index) {
        lemma_put(index, e);
    }
    lemma_slot_of(index, e.inode);
    match slot_of(index, e.inode) {
        Some(k) => {
            lemma_has_inode(after, e.inode, k);
        },
        None => {
            lemma_has_inode(after, e.inode, index.len() as int);
        },
    }
    assert forall|ino: u64| has_inode(index, ino) implies #[trigger] has_inode(after, ino) by {
        lemma_slot_of(index, ino);
        let j = slot_of(index, ino)->0;
        if ino != e.inode {
            assert(after[j] == index[j]);
            lemma_has_inode(after, ino, j);
        }
    }
    if all_from_listings(image, bpb, index) && from_listing(image, bpb, e) {
        assert forall|k: int| 0 <= k < after.len() implies from_listing(
            image,
            bpb,
            #[trigger] after[k],
        ) by {
            if after[k] != e {
                assert(after[k] == index[k]);
            }
        }
    }
}

/// Putting the entries of a listing in keeps every identifier that the
/// index held, and the index then holds that of each entry of the listing.
/// Entries that come from listings stay such.
pub proof fn lemma_index_dir_keeps(
    image: Seq<u8>,
    bpb: BootSector,
    index: Seq<Indexed>,
    dir: u32,
    listing: Seq<(int, RecordView)>,
    n: int,
)
    requires
        0 <= n <= listing.len(),
    ensures
        forall|ino: u64|
            has_inode(index, ino) ==> #[trigger] has_inode(
                index_dir(index, dir, listing.take(n)),
                ino,
            ),
        forall|j: int|
            0 <= j < n ==> has_inode(
                index_dir(index, dir, listing.take(n)),
                inode_number(dir, (#[trigger] listing[j]).0),
            ),
        all_from_listings(image, bpb, index) && dir_entries(image, bpb, dir) == Some(listing)
            ==> all_from_listings(image, bpb, index_dir(index, dir, listing.take(n))),
        distinct_inodes(index) ==> distinct_inodes(index_dir(index, dir, listing.take(n))),
    decreases n,
{
    if n > 0 {
        lemma_index_dir_keeps(image, bpb, index, dir, listing, n - 1);
        assert(listing.take(n).drop_last() =~= listing.take(n - 1));
        assert(listing.take(n).last() == listing[n - 1]);
        let before = index_dir(index, dir, listing.take(n - 1));
        let e = indexed(dir, listing[n - 1]);
        lemma_put_keeps(image, bpb, before, e);
        assert(index_dir(index, dir, listing.take(n)) == put(before, e));
        if dir_entries(image, bpb, dir) == Some(listing) {
            let entries = dir_entries(image, bpb, e.parent)->0;
            assert(entries == listing);
            assert(e.inode == inode_number(e.parent, e.position));
            assert(0 <= n - 1 < entries.len() && entries[n - 1] == (e.position, e.record));
            assert(from_listing(image, bpb, e));
        }
    }
}

/// The traversal keeps every identifier that the index held, and entries
/// that come from listings stay such.
pub proof fn lemma_traverse_keeps(
    image: Seq<u8>,
    bpb: BootSector,
    stack: Seq<u32>,
    visited: Set<u32>,
    index: Seq<Indexed>,
)
    requires
        visited.finite(),
    ensures
        traverse(image, bpb, stack, visited, index) matches Some(ix) ==> {
            &&& forall|ino: u64| has_inode(index, ino) ==> #[trigger] has_inode(ix, ino)
            &&& all_from_listings(image, bpb, index) ==> all_from_listings(image, bpb, ix)
            &&& distinct_inodes(index) ==> distinct_inodes(ix)
        },
    decreases unvisited(visited), stack.len(),
{
    if stack.len() != 0 {
        let dir = stack.last();
        let rest = stack.drop_last();
        if visited.contains(dir) {
            lemma_traverse_keeps(image, bpb, rest, visited, index);
        } else {
            lemma_unvisited_room(visited, dir);
            match dir_entries(image, bpb, dir) {
                None => {},
                Some(entries) => {
                    lemma_index_dir_keeps(image, bpb, index, dir, entries, entries.len() as int);
                    assert(entries.take(entries.len() as int) =~= entries);
                    lemma_traverse_keeps(
                        image,
                        bpb,
                        rest + subdirs(entries),
                        visited.insert(dir),
                        index_dir(index, dir, entries),
                    );
                },
            }
        }
    }
}

/// Every entry of the index of a volume is an entry of the listing of its
/// directory, and its identifier is the one that the listing gives it. No
/// identifier stands in two slots, so each entry is found under its own.
pub proof fn lemma_index_agrees_with_listings(
    image: Seq<u8>,
    bpb: BootSector,
    index: Seq<Indexed>,
    k: int,
)
    requires
        volume_index(image, bpb) == Some(index),
        0 <= k < index.len(),
    ensures
        from_listing(image, bpb, index[k]),
        dir_entries(image, bpb, index[k].parent) matches Some(entries) && with_inodes(
            index[k].parent,
            entries,
        ).contains((index[k].inode, index[k].record)),
        distinct_inodes(index),
        slot_of(index, index[k].inode) == Some(k),
{
    lemma_traverse_keeps(
        image,
        bpb,
        seq![bpb.root_dir_first_cluster],
        Set::empty(),
        Seq::empty(),
    );
    let e = index[k];
    assert(from_listing(image, bpb, e));
    lemma_slot_of(index, e.inode);
    let entries = dir_entries(image, bpb, e.parent)->0;
    let j = choose|j: int| 0 <= j < entries.len() && #[trigger] entries[j] == (e.position, e.record);
    assert(with_inodes(e.parent, entries)[j] == (e.inode, e.record));
}

/// The index of a volume holds the identifier of every entry of the listing
/// of the root directory.
pub proof fn lemma_root_listing_is_indexed(
    image: Seq<u8>,
    bpb: BootSector,
    index: Seq<Indexed>,
    entries: Seq<(int, RecordView)>,
    j: int,
)
    requires
        volume_index(image, bpb) == Some(index),
        dir_entries(image, bpb, bpb.root_dir_first_cluster) == Some(entries),
        0 <= j < entries.len(),
    ensures
        has_inode(index, inode_number(bpb.root_dir_first_cluster, entries[j].0)),
        has_inode(index, with_inodes(bpb.root_dir_first_cluster, entries)[j].0),
{
    let root = bpb.root_dir_first_cluster;
    let start: Seq<Indexed> = Seq::empty();
    assert(seq![root].drop_last() =~= Seq::<u32>::empty());
    lemma_index_dir_keeps(image, bpb, start, root, entries, entries.len() as int);
    assert(entries.take(entries.len() as int) =~= entries);
    lemma_unvisited_room(Set::<u32>::empty(), root);
    lemma_traverse_keeps(
        image,
        bpb,
        Seq::<u32>::empty() + subdirs(entries),
        Set::<u32>::empty().insert(root),
        index_dir(start, root, entries),
    );
}

/// Whether `e` is a directory whose first cluster names a cluster.
pub open spec fn is_subdir(e: Indexed) -> bool {
    e.record.is_dir() && e.record.first_cluster >= FIRST_CLUSTER
}

/// Whether `index` holds the identifier of every entry of the listing of
/// the directory that starts at cluster `dir`.
pub open spec fn listing_indexed(image: Seq<u8>, bpb: BootSector, index: Seq<Indexed>, dir: u32) -> bool {
    dir_entries(image, bpb, dir) matches Some(entries) && forall|j: int|
        0 <= j < entries.len() ==> has_inode(index, inode_number(dir, (#[trigger] entries[j]).0))
}

/// Whether the listing of every directory of `visited` is in `index`.
pub open spec fn visited_indexed(
    image: Seq<u8>,
    bpb: BootSector,
    index: Seq<Indexed>,
    visited: Set<u32>,
) -> bool {
    forall|d: u32| #[trigger] visited.contains(d) ==> listing_indexed(image, bpb, index, d)
}

/// Whether every directory that `index` holds has been entered or waits on
/// the stack.
pub open spec fn subdirs_pending(index: Seq<Indexed>, stack: Seq<u32>, visited: Set<u32>) -> bool {
    forall|k: int|
        0 <= k < index.len() && is_subdir(#[trigger] index[k]) ==> visited.contains(
            index[k].record.first_cluster,
        ) || stack.contains(index[k].record.first_cluster)
}

/// Whether the listing of every directory that `index` holds is in `index`.
pub open spec fn closed_under_listing(image: Seq<u8>, bpb: BootSector, index: Seq<Indexed>) -> bool {
    forall|k: int|
        0 <= k < index.len() && is_subdir(#[trigger] index[k]) ==> listing_indexed(
            image,
            bpb,
            index,
            index[k].record.first_cluster,
        )
}

/// The first cluster of every directory among `entries` is among their
/// directories.
pub proof fn lemma_subdirs_contains(entries: Seq<(int, RecordView)>, j: int)
    requires
        0 <= j < entries.len(),
        entries[j].1.is_dir(),
        entries[j].1.first_cluster >= FIRST_CLUSTER,
    ensures
        subdirs(entries).contains(entries[j].1.first_cluster),
    decreases entries.len(),
{
    let before = subdirs(entries.drop_last());
    let last = entries.last().1;
    if j == entries.len() - 1 {
        assert(before.push(last.first_cluster)[before.len() as int] == last.first_cluster);
    } else {
        assert(entries.drop_last()[j] == entries[j]);
        lemma_subdirs_contains(entries.drop_last(), j);
        let i = choose|i: int| 0 <= i < before.len() && before[i] == entries[j].1.first_cluster;
        if last.is_dir() && last.first_cluster >= FIRST_CLUSTER {
            assert(before.push(last.first_cluster)[i] == before[i]);
        }
    }
}

/// After the entries of a listing have been put in, every entry of the
/// index is one that it held before or one of the listing.
pub proof fn lemma_index_dir_entries(
    index: Seq<Indexed>,
    dir: u32,
    listing: Seq<(int, RecordView)>,
    n: int,
    k: int,
)
    requires
        0 <= n <= listing.len(),
        0 <= k < index_dir(index, dir, listing.take(n)).len(),
    ensures
        (exists|i: int| 0 <= i < index.len() && #[trigger] index[i] == index_dir(
            index,
            dir,
            listing.take(n),
        )[k]) || (exists|j: int|
            0 <= j < n && indexed(dir, #[trigger] listing[j]) == index_dir(
                index,
                dir,
                listing.take(n),
            )[k]),
    decreases n,
{
    let after = index_dir(index, dir, listing.take(n));
    if n == 0 {
        assert(index[k] == after[k]);
    } else {
        assert(listing.take(n).drop_last() =~= listing.take(n - 1));
        assert(listing.take(n).last() == listing[n - 1]);
        let before = index_dir(index, dir, listing.take(n - 1));
        let e = indexed(dir, listing[n - 1]);
        assert(after == put(before, e));
        lemma_slot_of(before, e.inode);
        if after[k] == e {
            assert(indexed(dir, listing[n - 1]) == after[k]);
        } else {
            assert(k < before.len() && before[k] == after[k]);
            lemma_index_dir_entries(index, dir, listing, n - 1, k);
        }
    }
}

/// Where the traversal ends, the listing of every directory that the index
/// holds is in the index.
pub proof fn lemma_traverse_complete(
    image: Seq<u8>,
    bpb: BootSector,
    stack: Seq<u32>,
    visited: Set<u32>,
    index: Seq<Indexed>,
)
    requires
        visited.finite(),
        subdirs_pending(index, stack, visited),
        visited_indexed(image, bpb, index, visited),
    ensures
        traverse(image, bpb, stack, visited, index) matches Some(ix) ==> closed_under_listing(
            image,
            bpb,
            ix,
        ),
    decreases unvisited(visited), stack.len(),
{
    if stack.len() == 0 {
        assert forall|k: int| 0 <= k < index.len() && is_subdir(#[trigger] index[k]) implies listing_indexed(
            image,
            bpb,
            index,
            index[k].record.first_cluster,
        ) by {
            assert(visited.contains(index[k].record.first_cluster));
        }
    } else {
        let dir = stack.last();
        let rest = stack.drop_last();
        if visited.contains(dir) {
            assert forall|k: int| 0 <= k < index.len() && is_subdir(#[trigger] index[k]) implies visited.contains(
                index[k].record.first_cluster,
            ) || rest.contains(index[k].record.first_cluster) by {
                let fc = index[k].record.first_cluster;
                if !visited.contains(fc) {
                    let i = choose|i: int| 0 <= i < stack.len() && stack[i] == fc;
                    assert(rest[i] == fc);
                }
            }
            lemma_traverse_complete(image, bpb, rest, visited, index);
        } else {
            lemma_unvisited_room(visited, dir);
            match dir_entries(image, bpb, dir) {
                None => {},
                Some(entries) => {
                    let after = index_dir(index, dir, entries);
                    let stack2 = rest + subdirs(entries);
                    let visited2 = visited.insert(dir);
                    lemma_index_dir_keeps(image, bpb, index, dir, entries, entries.len() as int);
                    assert(entries.take(entries.len() as int) =~= entries);
                    assert forall|d: u32| #[trigger] visited2.contains(d) implies listing_indexed(
                        image,
                        bpb,
                        after,
                        d,
                    ) by {
                        if d != dir {
                            assert(visited.contains(d));
                            assert(listing_indexed(image, bpb, index, d));
                        }
                    }
                    assert forall|k: int| 0 <= k < after.len() && is_subdir(#[trigger] after[k]) implies visited2.contains(
                        after[k].record.first_cluster,
                    ) || stack2.contains(after[k].record.first_cluster) by {
                        let fc = after[k].record.first_cluster;
                        lemma_index_dir_entries(index, dir, entries, entries.len() as int, k);
                        if exists|i: int| 0 <= i < index.len() && #[trigger] index[i] == after[k] {
                            let i = choose|i: int|
                                0 <= i < index.len() && #[trigger] index[i] == after[k];
                            assert(is_subdir(index[i]));
                            if !visited.contains(fc) && fc != dir {
                                let p = choose|p: int| 0 <= p < stack.len() && stack[p] == fc;
                                assert(stack2[p] == fc);
                            }
                        } else {
                            let j = choose|j: int|
                                0 <= j < entries.len() && indexed(dir, #[trigger] entries[j])
                                    == after[k];
                            lemma_subdirs_contains(entries, j);
                            let subs = subdirs(entries);
                            let q = choose|q: int| 0 <= q < subs.len() && subs[q] == fc;
                            assert(stack2[rest.len() + q] == fc);
                        }
                    }
                    lemma_traverse_complete(image, bpb, stack2, visited2, after);
                },
            }
        }
    }
}

/// The traversal leaves no directory out: the index of a volume holds the
/// identifier of every entry of the listing of every directory that it
/// holds, as it holds those of the listing of the root directory.
pub proof fn lemma_index_is_complete(
    image: Seq<u8>,
    bpb: BootSector,
    index: Seq<Indexed>,
    k: int,
)
    requires
        volume_index(image, bpb) == Some(index),
        0 <= k < index.len(),
        is_subdir(index[k]),
    ensures
        listing_indexed(image, bpb, index, index[k].record.first_cluster),
{
    lemma_traverse_complete(
        image,
        bpb,
        seq![bpb.root_dir_first_cluster],
        Set::empty(),
        Seq::empty(),
    );
}

/// Number of places of a directory that an identifier tells apart: two to
/// the power of 32.
pub const POSITION_LIMIT: u64 = 0x1_0000_0000;

/// Whether every entry of `index` stands at a place of its directory that
/// its identifier tells apart from every other.
pub open spec fn positions_fit(index: Seq<Indexed>) -> bool {
    forall|k: int| 0 <= k < index.len() ==> (#[trigger] index[k]).position < POSITION_LIMIT
}

/// The index gives each record the identifier that the listing of its
/// directory gives it, and the record back under that identifier: for the
/// root directory and for every directory that the index holds, where no
/// directory has 2^32 records or more.
pub proof fn lemma_listing_lookup(
    image: Seq<u8>,
    bpb: BootSector,
    index: Seq<Indexed>,
    dir: u32,
    entries: Seq<(int, RecordView)>,
    j: int,
)
    requires
        volume_index(image, bpb) == Some(index),
        dir == bpb.root_dir_first_cluster || exists|k: int|
            0 <= k < index.len() && is_subdir(#[trigger] index[k]) && index[k].record.first_cluster
                == dir,
        dir_entries(image, bpb, dir) == Some(entries),
        0 <= j < entries.len(),
        entries[j].0 < POSITION_LIMIT,
        positions_fit(index),
    ensures
        inode_lookup(index, with_inodes(dir, entries)[j].0) == Ok::<InodeView, Failure>(
            inode_of(with_inodes(dir, entries)[j].0, entries[j].1),
        ),
{
    let ino = inode_number(dir, entries[j].0);
    if dir == bpb.root_dir_first_cluster {
        lemma_root_listing_is_indexed(image, bpb, index, entries, j);
    } else {
        let k = choose|k: int|
            0 <= k < index.len() && is_subdir(#[trigger] index[k]) && index[k].record.first_cluster
                == dir;
        lemma_index_is_complete(image, bpb, index, k);
        assert(listing_indexed(image, bpb, index, dir));
        let listed = dir_entries(image, bpb, dir)->0;
        assert(has_inode(index, inode_number(dir, listed[j].0)));
    }
    lemma_slot_of(index, ino);
    let slot = slot_of(index, ino)->0;
    let e = index[slot];
    lemma_index_agrees_with_listings(image, bpb, index, slot);
    let listing = dir_entries(image, bpb, e.parent)->0;
    let at = choose|at: int| 0 <= at < listing.len() && #[trigger] listing[at] == (e.position, e.record);
    lemma_entries_from_positions(dir_records(image, bpb, e.parent)->0, 0);
    lemma_entries_from_positions(dir_records(image, bpb, dir)->0, 0);
    assert(0 <= listing[at].0);
    assert(0 <= entries[j].0);
    lemma_inode_number_injective(e.parent, e.position, dir, entries[j].0);
    assert(listing == entries);
    if at < j {
        assert(entries[at].0 < entries[j].0);
    } else if j < at {
        assert(entries[j].0 < entries[at].0);
    }
    assert(at == j);
}

} // verus!
