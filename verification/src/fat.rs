//! The file allocation table: 32-bit entries that chain clusters together.

use crate::bpb::BootSector;
use crate::le::{le32, read_le32};
use crate::source::ByteSource;
use std::collections::HashSet;
use vstd::prelude::*;

verus! {

broadcast use vstd::std_specs::hash::group_hash_axioms;

/// Table values from here up mark the end of a chain.
pub const END_OF_CHAIN_MIN: u32 = 0xFFFF_FFF8;

/// The first cluster number that names a cluster of the heap.
pub const FIRST_CLUSTER: u32 = 2;

/// Cluster numbers from here up name no cluster.
pub const CLUSTER_LIMIT: u32 = 0xFFFF_FFF0;

/// Whether the table value `v` marks the end of a chain.
pub fn is_eoc(v: u32) -> (r: bool)
    ensures
        r == (v >= END_OF_CHAIN_MIN),
{
    v >= END_OF_CHAIN_MIN
}

/// The table entry of `cluster` in a volume whose table starts at byte
/// `fat_start`; `None` where the entry lies past the end of the volume.
pub open spec fn fat_entry(image: Seq<u8>, fat_start: int, cluster: u32) -> Option<u32> {
    if fat_start + 4 * cluster + 4 <= image.len() {
        Some(le32(image, fat_start + 4 * cluster) as u32)
    } else {
        None
    }
}

/// `head` followed by `tail`, where there is a tail.
pub open spec fn prefixed(head: Seq<u32>, tail: Option<Seq<u32>>) -> Option<Seq<u32>> {
    match tail {
        Some(t) => Some(head + t),
        None => None,
    }
}

/// The clusters of the chain that goes on at `cur`, with `budget` clusters
/// still allowed and the clusters of `seen` already passed.
///
/// The chain stops before a number that names no cluster, before a cluster
/// already passed, and when the budget is used up. It stops after a cluster
/// whose entry is an end mark, zero, or the cluster itself. `None` where an
/// entry that is needed lies past the end of the volume.
pub open spec fn chain_from(
    image: Seq<u8>,
    fat_start: int,
    cur: u32,
    budget: nat,
    seen: Set<u32>,
) -> Option<Seq<u32>>
    decreases budget,
{
    if cur < FIRST_CLUSTER || cur >= CLUSTER_LIMIT || budget == 0 || seen.contains(cur) {
        Some(Seq::empty())
    } else {
        match fat_entry(image, fat_start, cur) {
            None => None,
            Some(next) => if next >= END_OF_CHAIN_MIN || next == 0 || next == cur {
                Some(seq![cur])
            } else {
                prefixed(
                    seq![cur],
                    chain_from(image, fat_start, next, (budget - 1) as nat, seen.insert(cur)),
                )
            },
        }
    }
}

/// The chain that starts at `first`, of at most `max` clusters.
pub open spec fn chain(image: Seq<u8>, fat_start: int, first: u32, max: nat) -> Option<Seq<u32>> {
    chain_from(image, fat_start, first, max, Set::empty())
}

/// A chain never holds more clusters than the budget allows, never a
/// cluster twice nor one already passed, and only numbers that name
/// clusters.
pub proof fn lemma_chain_from(
    image: Seq<u8>,
    fat_start: int,
    cur: u32,
    budget: nat,
    seen: Set<u32>,
)
    ensures
        chain_from(image, fat_start, cur, budget, seen) matches Some(s) ==> {
            &&& s.len() <= budget
            &&& s.no_duplicates()
            &&& forall|i: int|
                0 <= i < s.len() ==> FIRST_CLUSTER <= #[trigger] s[i] < CLUSTER_LIMIT
                    && !seen.contains(s[i])
        },
    decreases budget,
{
    if cur < FIRST_CLUSTER || cur >= CLUSTER_LIMIT || budget == 0 || seen.contains(cur) {
    } else {
        match fat_entry(image, fat_start, cur) {
            None => {},
            Some(next) => {
                if next >= END_OF_CHAIN_MIN || next == 0 || next == cur {
                } else {
                    lemma_chain_from(
                        image,
                        fat_start,
                        next,
                        (budget - 1) as nat,
                        seen.insert(cur),
                    );
                    let rest = chain_from(
                        image,
                        fat_start,
                        next,
                        (budget - 1) as nat,
                        seen.insert(cur),
                    );
                    if let Some(t) = rest {
                        let s = seq![cur] + t;
                        assert forall|i: int| 0 <= i < s.len() implies FIRST_CLUSTER
                            <= #[trigger] s[i] < CLUSTER_LIMIT && !seen.contains(s[i]) by {
                            if i > 0 {
                                assert(s[i] == t[i - 1]);
                                assert(!seen.insert(cur).contains(t[i - 1]));
                            }
                        }
                        assert forall|i: int, j: int|
                            0 <= i < s.len() && 0 <= j < s.len() && i != j implies s[i]
                            != s[j] by {
                            if i > 0 {
                                assert(s[i] == t[i - 1]);
                                assert(!seen.insert(cur).contains(t[i - 1]));
                            }
                            if j > 0 {
                                assert(s[j] == t[j - 1]);
                                assert(!seen.insert(cur).contains(t[j - 1]));
                            }
                        }
                    }
                }
            },
        }
    }
}

/// However the table is damaged (a cycle, an entry that points at its own
/// cluster, an entry that points below the first cluster), the chain from
/// `first` ends within `max` clusters and holds no cluster twice.
pub proof fn lemma_chain_is_bounded(image: Seq<u8>, fat_start: int, first: u32, max: nat)
    ensures
        chain(image, fat_start, first, max) matches Some(s) ==> {
            &&& s.len() <= max
            &&& s.no_duplicates()
            &&& forall|i: int| 0 <= i < s.len() ==> FIRST_CLUSTER <= #[trigger] s[i] < CLUSTER_LIMIT
        },
{
    lemma_chain_from(image, fat_start, first, max, Set::empty());
}

/// Why a walk along a chain stopped.
#[derive(Debug, Clone, Copy, PartialEq, Eq, Structural)]
pub enum ChainEnd {
    /// The walk was to start below the first cluster.
    InvalidStart,
    /// The entry of the last cluster is an end mark.
    EndMark,
    /// The entry of the last cluster, which is named, is zero, as that of a
    /// free cluster.
    Free(u32),
    /// The entry of the last cluster, which is named, points at the cluster
    /// itself.
    SelfLoop(u32),
    /// The entry of the last cluster points at a cluster already passed,
    /// which is named.
    Cycle(u32),
    /// The number to go on at names no cluster.
    NoCluster,
    /// As many clusters as were allowed have been passed.
    Limit,
}

/// Why the walk that goes on at `cur` stops, with `budget` clusters still
/// allowed and the clusters of `seen` already passed; `None` where an entry
/// that is needed lies past the end of the volume.
pub open spec fn end_from(
    image: Seq<u8>,
    fat_start: int,
    cur: u32,
    budget: nat,
    seen: Set<u32>,
) -> Option<ChainEnd>
    decreases budget,
{
    if cur < FIRST_CLUSTER || cur >= CLUSTER_LIMIT {
        Some(ChainEnd::NoCluster)
    } else if budget == 0 {
        Some(ChainEnd::Limit)
    } else if seen.contains(cur) {
        Some(ChainEnd::Cycle(cur))
    } else {
        match fat_entry(image, fat_start, cur) {
            None => None,
            Some(next) => if next >= END_OF_CHAIN_MIN {
                Some(ChainEnd::EndMark)
            } else if next == 0 {
                Some(ChainEnd::Free(cur))
            } else if next == cur {
                Some(ChainEnd::SelfLoop(cur))
            } else {
                end_from(image, fat_start, next, (budget - 1) as nat, seen.insert(cur))
            },
        }
    }
}

/// Why the walk that starts at `first`, of at most `max` clusters, stops.
pub open spec fn chain_end(image: Seq<u8>, fat_start: int, first: u32, max: nat) -> Option<
    ChainEnd,
> {
    if first < FIRST_CLUSTER {
        Some(ChainEnd::InvalidStart)
    } else {
        end_from(image, fat_start, first, max, Set::empty())
    }
}

/// A walk that goes on has an end exactly where it has clusters: both want
/// the same table entries.
pub proof fn lemma_end_from_with_chain(
    image: Seq<u8>,
    fat_start: int,
    cur: u32,
    budget: nat,
    seen: Set<u32>,
)
    ensures
        end_from(image, fat_start, cur, budget, seen) is Some <==> chain_from(
            image,
            fat_start,
            cur,
            budget,
            seen,
        ) is Some,
    decreases budget,
{
    if !(cur < FIRST_CLUSTER || cur >= CLUSTER_LIMIT || budget == 0 || seen.contains(cur)) {
        match fat_entry(image, fat_start, cur) {
            None => {},
            Some(next) => {
                if !(next >= END_OF_CHAIN_MIN || next == 0 || next == cur) {
                    lemma_end_from_with_chain(
                        image,
                        fat_start,
                        next,
                        (budget - 1) as nat,
                        seen.insert(cur),
                    );
                }
            },
        }
    }
}

/// A walk has an end exactly where it has clusters.
pub proof fn lemma_end_with_chain(image: Seq<u8>, fat_start: int, first: u32, max: nat)
    ensures
        chain_end(image, fat_start, first, max) is Some <==> chain(image, fat_start, first, max)
            is Some,
{
    lemma_end_from_with_chain(image, fat_start, first, max, Set::empty());
}

/// Whether `c` names no cluster: it lies below the first cluster or among
/// the reserved numbers at the top.
pub open spec fn names_no_cluster(c: u32) -> bool {
    c < FIRST_CLUSTER || c >= CLUSTER_LIMIT
}

/// Whether the walk from `first` reads no table entry: it is to start at a
/// number that names no cluster, or no cluster is allowed.
pub open spec fn walk_reads_nothing(first: u32, max: nat) -> bool {
    first < FIRST_CLUSTER || first >= CLUSTER_LIMIT || max == 0
}

impl BootSector {
    /// Whether the byte offset of every table entry fits in 64 bits.
    pub open spec fn fat_addressable(&self) -> bool {
        &&& self.bytes_per_sector_shift < 64
        &&& self.spec_fat_start_byte() + 4 * 0x1_0000_0000 <= u64::MAX
    }
}

/// A view of the allocation table of a volume.
pub struct Fat<'a, T: ByteSource> {
    pub bs: &'a BootSector,
    pub io: &'a mut T,
}

impl<'a, T: ByteSource> Fat<'a, T> {
    /// Whether `self` is `pre` after reads only: the same boot sector, the
    /// same source, and the same bytes in it.
    pub open spec fn after_reads(self, pre: Self) -> bool {
        &&& self.bs == pre.bs
        &&& self.io.image() == pre.io.image()
        &&& self.io.dependable() == pre.io.dependable()
    }

    /// A view of the table of the volume that `io` holds.
    pub fn new(bs: &'a BootSector, io: &'a mut T) -> (r: Self)
        ensures
            r.bs == bs,
            *r.io == *old(io),
            *final(r.io) == *final(io),
    {
        Self { bs, io }
    }

    /// Reads the table entry of `cluster`. The value is not interpreted.
    pub fn read_entry(&mut self, cluster: u32) -> (r: Result<u32, std::io::Error>)
        requires
            old(self).bs.bytes_per_sector_shift < 64,
            old(self).bs.spec_fat_start_byte() + 4 * cluster <= u64::MAX,
        ensures
            final(self).after_reads(*old(self)),
            *final(final(self).io) == *final(old(self).io),
            r matches Ok(v) ==> fat_entry(
                old(self).io.image(),
                old(self).bs.spec_fat_start_byte(),
                cluster,
            ) == Some(v),
            old(self).io.dependable() ==> (r is Ok <==> fat_entry(
                old(self).io.image(),
                old(self).bs.spec_fat_start_byte(),
                cluster,
            ) is Some),
    {
        let fat_byte: u64 = self.bs.fat_start_byte() + (cluster as u64) * 4;
        match self.io.read_at(fat_byte, 4) {
            Ok(b) => Ok(read_le32(b.as_slice(), 0)),
            Err(e) => Err(e),
        }
    }

    /// Follows the chain that starts at `first_cluster` and returns its
    /// clusters in order, at most `max` of them.
    pub fn walk_chain(&mut self, first_cluster: u32, max: usize) -> (r: Result<
        Vec<u32>,
        std::io::Error,
    >)
        requires
            old(self).bs.fat_addressable(),
        ensures
            final(self).after_reads(*old(self)),
            *final(final(self).io) == *final(old(self).io),
            r matches Ok(v) ==> {
                &&& chain(
                    old(self).io.image(),
                    old(self).bs.spec_fat_start_byte(),
                    first_cluster,
                    max as nat,
                ) == Some(v@)
                &&& v@.len() <= max
                &&& v@.no_duplicates()
                &&& forall|i: int|
                    0 <= i < v@.len() ==> FIRST_CLUSTER <= #[trigger] v@[i] < CLUSTER_LIMIT
            },
            old(self).io.dependable() ==> (r is Ok <==> chain(
                old(self).io.image(),
                old(self).bs.spec_fat_start_byte(),
                first_cluster,
                max as nat,
            ) is Some),
            walk_reads_nothing(first_cluster, max as nat) ==> (r matches Ok(v) && v@.len() == 0),
    {
        match self.walk_chain_with_end(first_cluster, max) {
            Ok(walked) => Ok(walked.0),
            Err(e) => Err(e),
        }
    }

    /// Follows the chain that starts at `first_cluster`, as `walk_chain`
    /// does, and tells with its clusters why the walk stopped.
    pub fn walk_chain_with_end(&mut self, first_cluster: u32, max: usize) -> (r: Result<
        (Vec<u32>, ChainEnd),
        std::io::Error,
    >)
        requires
            old(self).bs.fat_addressable(),
        ensures
            final(self).after_reads(*old(self)),
            *final(final(self).io) == *final(old(self).io),
            r matches Ok(w) ==> {
                &&& chain(
                    old(self).io.image(),
                    old(self).bs.spec_fat_start_byte(),
                    first_cluster,
                    max as nat,
                ) == Some(w.0@)
                &&& chain_end(
                    old(self).io.image(),
                    old(self).bs.spec_fat_start_byte(),
                    first_cluster,
                    max as nat,
                ) == Some(w.1)
                &&& w.0@.len() <= max
                &&& w.0@.no_duplicates()
                &&& forall|i: int|
                    0 <= i < w.0@.len() ==> FIRST_CLUSTER <= #[trigger] w.0@[i] < CLUSTER_LIMIT
            },
            old(self).io.dependable() ==> (r is Ok <==> chain(
                old(self).io.image(),
                old(self).bs.spec_fat_start_byte(),
                first_cluster,
                max as nat,
            ) is Some),
            walk_reads_nothing(first_cluster, max as nat) ==> (r matches Ok(w) && w.0@.len() == 0),
    {
        let ghost image = self.io.image();
        let ghost fat_start = self.bs.spec_fat_start_byte();
        let ghost total = chain(image, fat_start, first_cluster, max as nat);
        let ghost total_end = chain_end(image, fat_start, first_cluster, max as nat);
        proof {
            lemma_chain_is_bounded(image, fat_start, first_cluster, max as nat);
        }
        let mut out: Vec<u32> = Vec::new();
        let mut cur: u32 = first_cluster;
        let mut steps: usize = 0;
        let mut seen: HashSet<u32> = HashSet::new();
        if cur < FIRST_CLUSTER {
            return Ok((out, ChainEnd::InvalidStart));
        }
        let mut end = ChainEnd::Limit;
        loop
            invariant_except_break
                total == prefixed(
                    out@,
                    chain_from(image, fat_start, cur, (max - steps) as nat, seen@),
                ),
                total_end == end_from(image, fat_start, cur, (max - steps) as nat, seen@),
                walk_reads_nothing(first_cluster, max as nat) ==> steps == 0 && out@.len() == 0
                    && cur == first_cluster,
            invariant
                self.after_reads(*old(self)),
                *final(self.io) == *final(old(self).io),
                self.bs.fat_addressable(),
                image == self.io.image(),
                fat_start == self.bs.spec_fat_start_byte(),
                total == chain(image, fat_start, first_cluster, max as nat),
                steps <= max,
            ensures
                total == Some(out@),
                total_end == Some(end),
                walk_reads_nothing(first_cluster, max as nat) ==> out@.len() == 0,
            decreases max - steps,
        {
            let ghost before = out@;
            let ghost passed = seen@;
            if cur < FIRST_CLUSTER || cur >= CLUSTER_LIMIT {
                end = ChainEnd::NoCluster;
                assert(out@ + Seq::<u32>::empty() =~= out@);
                break;
            }
            if steps >= max {
                end = ChainEnd::Limit;
                assert(out@ + Seq::<u32>::empty() =~= out@);
                break;
            }
            if !seen.insert(cur) {
                end = ChainEnd::Cycle(cur);
                assert(out@ + Seq::<u32>::empty() =~= out@);
                break;
            }
            out.push(cur);
            let next = match self.read_entry(cur) {
                Ok(n) => n,
                Err(e) => {
                    return Err(e);
                },
            };
            if is_eoc(next) {
                end = ChainEnd::EndMark;
                assert(before + seq![cur] =~= out@);
                break;
            }
            if next == 0 {
                end = ChainEnd::Free(cur);
                assert(before + seq![cur] =~= out@);
                break;
            }
            if next == cur {
                end = ChainEnd::SelfLoop(cur);
                assert(before + seq![cur] =~= out@);
                break;
            }
            proof {
                let rest = chain_from(
                    image,
                    fat_start,
                    next,
                    (max - steps - 1) as nat,
                    passed.insert(cur),
                );
                if let Some(t) = rest {
                    assert(before + (seq![cur] + t) =~= out@ + t);
                }
            }
            cur = next;
            steps += 1;
        }
        Ok((out, end))
    }
}

} // verus!
