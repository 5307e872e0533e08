//! The boot sector of an exFAT volume: decoding, validation and the
//! geometry derived from it.

use crate::le::{le16, le32, le64, read_le16, read_le32, read_le64};
use crate::table::{
    add_row, lemma_alphanumeric_plain, lemma_plain_concat, new_table, plain_text, table_rows,
    table_string, table_text,
};
use crate::text::{
    debug_string, debug_text, dec_string, dec_text, hex4_string, hex4_text, join2, join3, join4,
    join5, lemma_hex4_text, lemma_number_text, utf8_lossy, utf8_lossy_text,
};
use vstd::arithmetic::power2::{lemma2_to64, pow2};
use vstd::bits::lemma_u64_shl_is_mul;
use vstd::prelude::*;
use vstd::string::StringExecFns;

verus! {

/// Size of the boot sector in bytes.
pub const BOOT_SECTOR_LEN: usize = 512;

/// The boot signature, read little-endian from the last two bytes of the sector.
pub const BOOT_SIGNATURE: u16 = 0xAA55;

/// The only file system revision that is accepted.
pub const FS_REVISION: u16 = 0x0100;

/// Smallest accepted cluster size in bytes: 4 KiB.
pub const MIN_BYTES_PER_CLUSTER: u64 = 4096;

/// Largest accepted cluster size in bytes: 32 MiB.
pub const MAX_BYTES_PER_CLUSTER: u64 = 0x200_0000;

/// The bytes of the OEM name of an exFAT volume: `EXFAT` and three spaces.
pub open spec fn exfat_oem() -> Seq<u8> {
    seq![0x45u8, 0x58u8, 0x46u8, 0x41u8, 0x54u8, 0x20u8, 0x20u8, 0x20u8]
}

/// The fields of the boot sector of an exFAT volume. Offsets and lengths
/// are in sectors; the two shifts are the binary logarithms of the sizes.
#[derive(Debug, Clone)]
pub struct BootSector {
    pub oem_name: [u8; 8],
    pub partition_offset: u64,
    pub volume_length: u64,
    pub fat_offset: u32,
    pub fat_length: u32,
    pub cluster_heap_offset: u32,
    pub cluster_count: u32,
    pub root_dir_first_cluster: u32,
    pub volume_serial: u32,
    pub fs_revision: u16,
    pub volume_flags: u16,
    pub bytes_per_sector_shift: u8,
    pub sectors_per_cluster_shift: u8,
    pub num_fats: u8,
    pub drive_select: u8,
}

/// The fields of a boot sector as plain values.
pub struct BootFields {
    pub oem_name: Seq<u8>,
    pub partition_offset: u64,
    pub volume_length: u64,
    pub fat_offset: u32,
    pub fat_length: u32,
    pub cluster_heap_offset: u32,
    pub cluster_count: u32,
    pub root_dir_first_cluster: u32,
    pub volume_serial: u32,
    pub fs_revision: u16,
    pub volume_flags: u16,
    pub bytes_per_sector_shift: u8,
    pub sectors_per_cluster_shift: u8,
    pub num_fats: u8,
    pub drive_select: u8,
}

impl View for BootSector {
    type V = BootFields;

    open spec fn view(&self) -> BootFields {
        BootFields {
            oem_name: self.oem_name@,
            partition_offset: self.partition_offset,
            volume_length: self.volume_length,
            fat_offset: self.fat_offset,
            fat_length: self.fat_length,
            cluster_heap_offset: self.cluster_heap_offset,
            cluster_count: self.cluster_count,
            root_dir_first_cluster: self.root_dir_first_cluster,
            volume_serial: self.volume_serial,
            fs_revision: self.fs_revision,
            volume_flags: self.volume_flags,
            bytes_per_sector_shift: self.bytes_per_sector_shift,
            sectors_per_cluster_shift: self.sectors_per_cluster_shift,
            num_fats: self.num_fats,
            drive_select: self.drive_select,
        }
    }
}

/// The fields that a sector of at least 512 bytes holds, each at its offset.
pub open spec fn decode_fields(bs: Seq<u8>) -> BootFields {
    BootFields {
        oem_name: bs.subrange(3, 11),
        partition_offset: le64(bs, 0x40) as u64,
        volume_length: le64(bs, 0x48) as u64,
        fat_offset: le32(bs, 0x50) as u32,
        fat_length: le32(bs, 0x54) as u32,
        cluster_heap_offset: le32(bs, 0x58) as u32,
        cluster_count: le32(bs, 0x5C) as u32,
        root_dir_first_cluster: le32(bs, 0x60) as u32,
        volume_serial: le32(bs, 0x64) as u32,
        fs_revision: le16(bs, 0x68) as u16,
        volume_flags: le16(bs, 0x6A) as u16,
        bytes_per_sector_shift: bs[0x6C],
        sectors_per_cluster_shift: bs[0x6D],
        num_fats: bs[0x6E],
        drive_select: bs[0x6F],
    }
}

impl BootFields {
    /// Bytes per cluster: two to the sum of the two shifts.
    pub open spec fn bytes_per_cluster(self) -> int {
        pow2(self.bytes_per_sector_shift as nat) as int * pow2(
            self.sectors_per_cluster_shift as nat,
        ) as int
    }

    /// The message for the first rule that the fields break, in the order in
    /// which the rules are checked; `None` where they break none.
    pub open spec fn defect(self) -> Option<Seq<char>> {
        if self.oem_name != exfat_oem() {
            Some("OEM name isn't EXFAT: "@ + debug_text(utf8_lossy_text(self.oem_name)))
        } else if self.fs_revision != FS_REVISION {
            Some("Unexpected exFAT fs_revision=0x"@ + hex4_text(self.fs_revision, true))
        } else if self.num_fats != 1 {
            Some("num_fats="@ + dec_text(self.num_fats as nat) + " (exFAT requires 1)"@)
        } else if self.volume_length == 0 {
            Some("volume_length is zero"@)
        } else if self.fat_offset == 0 || self.fat_length == 0 {
            Some(
                "Invalid FAT location/length: offset="@ + dec_text(self.fat_offset as nat)
                    + ", length="@ + dec_text(self.fat_length as nat),
            )
        } else if self.cluster_heap_offset == 0 || self.cluster_count < 2 {
            Some(
                "Invalid cluster heap: offset="@ + dec_text(self.cluster_heap_offset as nat)
                    + ", count="@ + dec_text(self.cluster_count as nat),
            )
        } else if self.root_dir_first_cluster < 2 {
            Some(
                "Invalid root_dir_first_cluster: "@ + dec_text(self.root_dir_first_cluster as nat)
                    + " (<2)"@,
            )
        } else if !(9 <= self.bytes_per_sector_shift <= 12) {
            Some(
                "bytes_per_sector_shift="@ + dec_text(self.bytes_per_sector_shift as nat)
                    + " not in [9..12]"@,
            )
        } else if self.sectors_per_cluster_shift > 25 {
            Some(
                "sectors_per_cluster_shift="@ + dec_text(self.sectors_per_cluster_shift as nat)
                    + " too large"@,
            )
        } else if !(MIN_BYTES_PER_CLUSTER <= self.bytes_per_cluster() <= MAX_BYTES_PER_CLUSTER) {
            Some(
                "bytes_per_cluster="@ + dec_text(self.bytes_per_cluster() as nat)
                    + " outside [4KiB..32MiB]"@,
            )
        } else if self.fat_offset + self.fat_length > self.cluster_heap_offset {
            Some(
                "FAT overlaps cluster heap: FAT end="@ + dec_text(
                    (self.fat_offset + self.fat_length) as nat,
                ) + " >= heap offset="@ + dec_text(self.cluster_heap_offset as nat),
            )
        } else if self.root_dir_first_cluster > self.cluster_count + 1 {
            Some(
                "root_dir_first_cluster="@ + dec_text(self.root_dir_first_cluster as nat)
                    + " out of range [2.."@ + dec_text((self.cluster_count + 1) as nat) + "]"@,
            )
        } else {
            None
        }
    }
}

/// The message with which the bytes `bs` are turned down as a boot sector;
/// `None` where they are accepted.
pub open spec fn rejection(bs: Seq<u8>) -> Option<Seq<char>> {
    if bs.len() < BOOT_SECTOR_LEN {
        Some("Boot sector too short: "@ + dec_text(bs.len()) + " < 512 bytes"@)
    } else if le16(bs, 510) != BOOT_SIGNATURE {
        Some("Invalid boot signature (0x55AA missing)"@)
    } else {
        decode_fields(bs).defect()
    }
}

impl BootSector {
    /// The rules that an accepted boot sector meets.
    pub open spec fn valid(&self) -> bool {
        &&& self.oem_name@ == exfat_oem()
        &&& self.fs_revision == FS_REVISION
        &&& self.num_fats == 1
        &&& self.volume_length != 0
        &&& self.fat_offset != 0
        &&& self.fat_length != 0
        &&& self.cluster_heap_offset != 0
        &&& self.cluster_count >= 2
        &&& 9 <= self.bytes_per_sector_shift <= 12
        &&& self.sectors_per_cluster_shift <= 25
        &&& MIN_BYTES_PER_CLUSTER <= self.spec_bytes_per_cluster() <= MAX_BYTES_PER_CLUSTER
        &&& self.fat_offset + self.fat_length <= self.cluster_heap_offset
        &&& 2 <= self.root_dir_first_cluster <= self.cluster_count + 1
    }

    /// Bytes per sector: two to the power of the sector shift.
    pub open spec fn spec_bytes_per_sector(&self) -> int {
        pow2(self.bytes_per_sector_shift as nat) as int
    }

    /// Sectors per cluster: two to the power of the cluster shift.
    pub open spec fn spec_sectors_per_cluster(&self) -> int {
        pow2(self.sectors_per_cluster_shift as nat) as int
    }

    /// Bytes per cluster.
    pub open spec fn spec_bytes_per_cluster(&self) -> int {
        self.spec_bytes_per_sector() * self.spec_sectors_per_cluster()
    }

    /// Byte offset of the allocation table from the start of the volume.
    pub open spec fn spec_fat_start_byte(&self) -> int {
        self.fat_offset * self.spec_bytes_per_sector()
    }

    /// Byte offset of the cluster heap from the start of the volume.
    pub open spec fn spec_cluster_heap_start_byte(&self) -> int {
        self.cluster_heap_offset * self.spec_bytes_per_sector()
    }

    /// Byte offset of cluster `clus`; cluster 2 is the first of the heap.
    pub open spec fn spec_cluster_to_byte_offset(&self, clus: int) -> int {
        (self.cluster_heap_offset + (clus - 2) * self.spec_sectors_per_cluster())
            * self.spec_bytes_per_sector()
    }

    /// The rules are met exactly where no rule is reported broken.
    pub proof fn lemma_valid_iff_no_defect(&self)
        ensures
            self.valid() <==> self@.defect() is None,
    {
    }

    /// With the rules met, sector and cluster sizes are powers of two within
    /// their limits, and every byte offset of the table and of the heap fits
    /// in 64 bits.
    pub proof fn lemma_valid_geometry(&self)
        requires
            self.valid(),
        ensures
            512 <= self.spec_bytes_per_sector() <= 4096,
            1 <= self.spec_sectors_per_cluster() <= 0x1_0000,
            self.spec_bytes_per_cluster() % 32 == 0,
            self.spec_fat_start_byte() + 4 * 0x1_0000_0000 <= u64::MAX,
            forall|c: int|
                2 <= c <= u32::MAX ==> 0 <= #[trigger] self.spec_cluster_to_byte_offset(c)
                    && self.spec_cluster_to_byte_offset(c) + self.spec_bytes_per_cluster()
                    <= u64::MAX,
    {
        lemma_pow2_values();
        lemma_pow2_bounded(self.sectors_per_cluster_shift as nat, 25);
        let bps = self.spec_bytes_per_sector();
        let spc = self.spec_sectors_per_cluster();
        let bpc = self.spec_bytes_per_cluster();
        assert(bps == 512 || bps == 1024 || bps == 2048 || bps == 4096);
        assert(spc <= 0x1_0000) by (nonlinear_arith)
            requires
                bps >= 512,
                spc >= 1,
                bps * spc <= 0x200_0000,
        ;
        assert(bpc % 32 == 0) by {
            lemma_cluster_size_is_pow2(
                self.bytes_per_sector_shift as nat,
                self.sectors_per_cluster_shift as nat,
            );
            lemma_pow2_values();
        }
        assert(self.fat_offset * bps <= 0xFFFF_FFFF * 4096) by (nonlinear_arith)
            requires
                0 <= self.fat_offset <= 0xFFFF_FFFF,
                0 <= bps <= 4096,
        ;
        assert forall|c: int| 2 <= c <= u32::MAX implies 0
            <= #[trigger] self.spec_cluster_to_byte_offset(c) && self.spec_cluster_to_byte_offset(c)
            + bpc <= u64::MAX by {
            let h = self.cluster_heap_offset as int;
            assert((h + (c - 2) * spc) * bps == h * bps + (c - 2) * (bps * spc))
                by (nonlinear_arith);
            assert(0 <= h * bps <= 0xFFFF_FFFF * 4096) by (nonlinear_arith)
                requires
                    0 <= h <= 0xFFFF_FFFF,
                    0 <= bps <= 4096,
            ;
            assert(0 <= (c - 2) * (bps * spc) <= 0xFFFF_FFFF * 0x200_0000) by (nonlinear_arith)
                requires
                    0 <= c - 2 <= 0xFFFF_FFFF,
                    0 <= bps * spc <= 0x200_0000,
            ;
        }
    }

    /// The first cluster of the heap starts where the heap starts, and each
    /// cluster starts one cluster size after the one before it.
    pub proof fn lemma_cluster_offsets(&self, c: int)
        ensures
            self.spec_cluster_to_byte_offset(2) == self.spec_cluster_heap_start_byte(),
            self.spec_cluster_to_byte_offset(2) == self.cluster_heap_offset
                * self.spec_bytes_per_sector(),
            self.spec_cluster_to_byte_offset(c + 1) - self.spec_cluster_to_byte_offset(c)
                == self.spec_bytes_per_cluster(),
    {
        let h = self.cluster_heap_offset as int;
        let spc = self.spec_sectors_per_cluster();
        let bps = self.spec_bytes_per_sector();
        assert((h + (2 - 2) * spc) * bps == h * bps) by (nonlinear_arith);
        assert((h + (c + 1 - 2) * spc) * bps - (h + (c - 2) * spc) * bps == bps * spc)
            by (nonlinear_arith);
    }

    /// Decodes and validates a boot sector. The rules are checked in a fixed
    /// order and the first one broken gives the message.
    pub fn from_bytes(bs: &[u8]) -> (r: Result<Self, String>)
        ensures
            match r {
                Ok(b) => rejection(bs@) is None && b@ == decode_fields(bs@) && b.valid(),
                Err(m) => rejection(bs@) == Some(m@),
            },
    {
        if bs.len() < BOOT_SECTOR_LEN {
            let n = dec_string(bs.len() as u64);
            return Err(join3("Boot sector too short: ", n.as_str(), " < 512 bytes"));
        }
        let mut oem_name = [0u8;8];
        let mut k: usize = 0;
        while k < 8
            invariant
                k <= 8,
                bs.len() >= 512,
                forall|j: int| 0 <= j < k ==> oem_name@[j] == bs@[3 + j],
            decreases 8 - k,
        {
            oem_name[k] = bs[3 + k];
            k += 1;
        }
        assert(oem_name@ =~= bs@.subrange(3, 11));

        let signature = read_le16(bs, 510);
        if signature != BOOT_SIGNATURE {
            return Err(String::from_str("Invalid boot signature (0x55AA missing)"));
        }
        let me = Self {
            oem_name,
            partition_offset: read_le64(bs, 0x40),
            volume_length: read_le64(bs, 0x48),
            fat_offset: read_le32(bs, 0x50),
            fat_length: read_le32(bs, 0x54),
            cluster_heap_offset: read_le32(bs, 0x58),
            cluster_count: read_le32(bs, 0x5C),
            root_dir_first_cluster: read_le32(bs, 0x60),
            volume_serial: read_le32(bs, 0x64),
            fs_revision: read_le16(bs, 0x68),
            volume_flags: read_le16(bs, 0x6A),
            bytes_per_sector_shift: bs[0x6C],
            sectors_per_cluster_shift: bs[0x6D],
            num_fats: bs[0x6E],
            drive_select: bs[0x6F],
        };
        assert(me@ == decode_fields(bs@));

        if !is_exfat_oem(&me.oem_name) {
            let lossy = utf8_lossy(me.oem_name.as_slice());
            let shown = debug_string(lossy.as_str());
            return Err(join2("OEM name isn't EXFAT: ", shown.as_str()));
        }
        if me.fs_revision != FS_REVISION {
            let shown = hex4_string(me.fs_revision, true);
            return Err(join2("Unexpected exFAT fs_revision=0x", shown.as_str()));
        }
        if me.num_fats != 1 {
            let n = dec_string(me.num_fats as u64);
            return Err(join3("num_fats=", n.as_str(), " (exFAT requires 1)"));
        }
        if me.volume_length == 0 {
            return Err(String::from_str("volume_length is zero"));
        }
        if me.fat_offset == 0 || me.fat_length == 0 {
            let a = dec_string(me.fat_offset as u64);
            let b = dec_string(me.fat_length as u64);
            return Err(
                join4("Invalid FAT location/length: offset=", a.as_str(), ", length=", b.as_str()),
            );
        }
        if me.cluster_heap_offset == 0 || me.cluster_count < 2 {
            let a = dec_string(me.cluster_heap_offset as u64);
            let b = dec_string(me.cluster_count as u64);
            return Err(join4("Invalid cluster heap: offset=", a.as_str(), ", count=", b.as_str()));
        }
        if me.root_dir_first_cluster < 2 {
            let a = dec_string(me.root_dir_first_cluster as u64);
            return Err(join3("Invalid root_dir_first_cluster: ", a.as_str(), " (<2)"));
        }
        if me.bytes_per_sector_shift < 9 || me.bytes_per_sector_shift > 12 {
            let a = dec_string(me.bytes_per_sector_shift as u64);
            return Err(join3("bytes_per_sector_shift=", a.as_str(), " not in [9..12]"));
        }
        if me.sectors_per_cluster_shift > 25 {
            let a = dec_string(me.sectors_per_cluster_shift as u64);
            return Err(join3("sectors_per_cluster_shift=", a.as_str(), " too large"));
        }
        proof {
            lemma_pow2_values();
            lemma_pow2_bounded(me.bytes_per_sector_shift as nat, 12);
            lemma_pow2_bounded(me.sectors_per_cluster_shift as nat, 25);
            assert(me.spec_bytes_per_cluster() <= 4096 * 0x200_0000) by (nonlinear_arith)
                requires
                    me.spec_bytes_per_cluster() == me.spec_bytes_per_sector()
                        * me.spec_sectors_per_cluster(),
                    0 <= me.spec_bytes_per_sector() <= 4096,
                    0 <= me.spec_sectors_per_cluster() <= 0x200_0000,
            ;
        }
        let bpc = me.bytes_per_cluster();
        if bpc < MIN_BYTES_PER_CLUSTER || bpc > MAX_BYTES_PER_CLUSTER {
            let a = dec_string(bpc);
            return Err(join3("bytes_per_cluster=", a.as_str(), " outside [4KiB..32MiB]"));
        }
        let fat_end_sector: u64 = me.fat_offset as u64 + me.fat_length as u64;
        if fat_end_sector > me.cluster_heap_offset as u64 {
            let a = dec_string(fat_end_sector);
            let b = dec_string(me.cluster_heap_offset as u64);
            return Err(
                join4("FAT overlaps cluster heap: FAT end=", a.as_str(), " >= heap offset=", b.as_str()),
            );
        }
        let last_cluster: u64 = me.cluster_count as u64 + 1;
        if me.root_dir_first_cluster as u64 > last_cluster {
            let a = dec_string(me.root_dir_first_cluster as u64);
            let b = dec_string(last_cluster);
            return Err(
                join5("root_dir_first_cluster=", a.as_str(), " out of range [2..", b.as_str(), "]"),
            );
        }
        Ok(me)
    }

    /// Bytes per sector.
    pub fn bytes_per_sector(&self) -> (r: u64)
        requires
            self.bytes_per_sector_shift < 64,
        ensures
            r == self.spec_bytes_per_sector(),
    {
        pow2_u64(self.bytes_per_sector_shift)
    }

    /// Sectors per cluster.
    pub fn sectors_per_cluster(&self) -> (r: u64)
        requires
            self.sectors_per_cluster_shift < 64,
        ensures
            r == self.spec_sectors_per_cluster(),
    {
        pow2_u64(self.sectors_per_cluster_shift)
    }

    /// Bytes per cluster.
    pub fn bytes_per_cluster(&self) -> (r: u64)
        requires
            self.bytes_per_sector_shift < 64,
            self.sectors_per_cluster_shift < 64,
            self.spec_bytes_per_cluster() <= u64::MAX,
        ensures
            r == self.spec_bytes_per_cluster(),
    {
        self.bytes_per_sector() * self.sectors_per_cluster()
    }

    /// Byte offset of the allocation table from the start of the volume.
    pub fn fat_start_byte(&self) -> (r: u64)
        requires
            self.bytes_per_sector_shift < 64,
            self.spec_fat_start_byte() <= u64::MAX,
        ensures
            r == self.spec_fat_start_byte(),
    {
        self.fat_offset as u64 * self.bytes_per_sector()
    }

    /// Byte offset of the cluster heap from the start of the volume.
    pub fn cluster_heap_start_byte(&self) -> (r: u64)
        requires
            self.bytes_per_sector_shift < 64,
            self.spec_cluster_heap_start_byte() <= u64::MAX,
        ensures
            r == self.spec_cluster_heap_start_byte(),
    {
        self.cluster_heap_offset as u64 * self.bytes_per_sector()
    }

    /// The rows of the summary: sector and cluster sizes, the places of the
    /// table and of the heap, the root directory, and the volume flags.
    pub open spec fn summary_rows(&self) -> Seq<(Seq<char>, Seq<char>)> {
        seq![
            ("Bytes/sector"@, dec_text(self.spec_bytes_per_sector() as nat)),
            ("Sectors/cluster"@, dec_text(self.spec_sectors_per_cluster() as nat)),
            ("Clusters"@, dec_text(self.cluster_count as nat)),
            ("FAT offset (sectors)"@, dec_text(self.fat_offset as nat)),
            ("FAT length (sectors)"@, dec_text(self.fat_length as nat)),
            ("Cluster heap offset (sectors)"@, dec_text(self.cluster_heap_offset as nat)),
            ("Root dir first cluster"@, dec_text(self.root_dir_first_cluster as nat)),
            ("Volume flags"@, "0x"@ + hex4_text(self.volume_flags, true)),
        ]
    }

    /// A table that sums the boot sector up.
    pub fn to_string(&self) -> (r: String)
        requires
            self.bytes_per_sector_shift < 64,
            self.sectors_per_cluster_shift < 64,
        ensures
            r@ == table_text(self.summary_rows()),
    {
        let flags = join2("0x", hex4_string(self.volume_flags, true).as_str());
        proof {
            reveal_strlit("Bytes/sector");
            reveal_strlit("Sectors/cluster");
            reveal_strlit("Clusters");
            reveal_strlit("FAT offset (sectors)");
            reveal_strlit("FAT length (sectors)");
            reveal_strlit("Cluster heap offset (sectors)");
            reveal_strlit("Root dir first cluster");
            reveal_strlit("Volume flags");
            reveal_strlit("0x");
            lemma_number_text(self.spec_bytes_per_sector() as nat, false);
            lemma_number_text(self.spec_sectors_per_cluster() as nat, false);
            lemma_number_text(self.cluster_count as nat, false);
            lemma_number_text(self.fat_offset as nat, false);
            lemma_number_text(self.fat_length as nat, false);
            lemma_number_text(self.cluster_heap_offset as nat, false);
            lemma_number_text(self.root_dir_first_cluster as nat, false);
            lemma_alphanumeric_plain(dec_text(self.spec_bytes_per_sector() as nat));
            lemma_alphanumeric_plain(dec_text(self.spec_sectors_per_cluster() as nat));
            lemma_alphanumeric_plain(dec_text(self.cluster_count as nat));
            lemma_alphanumeric_plain(dec_text(self.fat_offset as nat));
            lemma_alphanumeric_plain(dec_text(self.fat_length as nat));
            lemma_alphanumeric_plain(dec_text(self.cluster_heap_offset as nat));
            lemma_alphanumeric_plain(dec_text(self.root_dir_first_cluster as nat));
            lemma_hex4_text(self.volume_flags, true);
            lemma_alphanumeric_plain(hex4_text(self.volume_flags, true));
            assert(plain_text("0x"@));
            lemma_plain_concat("0x"@, hex4_text(self.volume_flags, true));
        }
        let mut t = new_table();
        add_row(&mut t, "Bytes/sector", dec_string(self.bytes_per_sector()).as_str());
        add_row(&mut t, "Sectors/cluster", dec_string(self.sectors_per_cluster()).as_str());
        add_row(&mut t, "Clusters", dec_string(self.cluster_count as u64).as_str());
        add_row(&mut t, "FAT offset (sectors)", dec_string(self.fat_offset as u64).as_str());
        add_row(&mut t, "FAT length (sectors)", dec_string(self.fat_length as u64).as_str());
        add_row(
            &mut t,
            "Cluster heap offset (sectors)",
            dec_string(self.cluster_heap_offset as u64).as_str(),
        );
        add_row(
            &mut t,
            "Root dir first cluster",
            dec_string(self.root_dir_first_cluster as u64).as_str(),
        );
        add_row(&mut t, "Volume flags", flags.as_str());
        assert(table_rows(t) =~= self.summary_rows());
        table_string(&t)
    }

    /// Byte offset of cluster `clus`. Clusters are numbered from 2.
    pub fn cluster_to_byte_offset(&self, clus: u32) -> (r: u64)
        requires
            clus >= 2,
            self.bytes_per_sector_shift < 64,
            self.sectors_per_cluster_shift < 64,
            self.spec_cluster_to_byte_offset(clus as int) <= u64::MAX,
        ensures
            r == self.spec_cluster_to_byte_offset(clus as int),
    {
        let spc = self.sectors_per_cluster();
        let bps = self.bytes_per_sector();
        proof {
            lemma_pow2_values();
            let h = self.cluster_heap_offset as int;
            let k = clus as int - 2;
            assert(bps >= 1 && spc >= 1) by {
                vstd::arithmetic::power2::lemma_pow2_pos(self.bytes_per_sector_shift as nat);
                vstd::arithmetic::power2::lemma_pow2_pos(self.sectors_per_cluster_shift as nat);
            }
            assert(0 <= k * spc && h + k * spc <= (h + k * spc) * bps) by (nonlinear_arith)
                requires
                    k >= 0,
                    spc >= 1,
                    bps >= 1,
                    h >= 0,
            ;
        }
        let data_sector: u64 = self.cluster_heap_offset as u64 + (clus as u64 - 2) * spc;
        data_sector * bps
    }
}

/// Whether the eight bytes spell the exFAT OEM name.
pub fn is_exfat_oem(oem: &[u8; 8]) -> (r: bool)
    ensures
        r == (oem@ == exfat_oem()),
{
    let r = oem[0] == 0x45 && oem[1] == 0x58 && oem[2] == 0x46 && oem[3] == 0x41 && oem[4] == 0x54
        && oem[5] == 0x20 && oem[6] == 0x20 && oem[7] == 0x20;
    assert(r == (oem@ =~= exfat_oem()));
    r
}

/// Two to the power `shift`.
pub fn pow2_u64(shift: u8) -> (r: u64)
    requires
        shift < 64,
    ensures
        r == pow2(shift as nat),
{
    proof {
        vstd::bits::lemma_u64_pow2_no_overflow(shift as nat);
        lemma_u64_shl_is_mul(1u64, shift as u64);
    }
    1u64 << (shift as u64)
}

/// The powers of two up to the 32nd, as numbers.
pub proof fn lemma_pow2_values()
    ensures
        pow2(0) == 1,
        pow2(5) == 32,
        pow2(9) == 512,
        pow2(10) == 1024,
        pow2(11) == 2048,
        pow2(12) == 4096,
        pow2(16) == 0x1_0000,
        pow2(25) == 0x200_0000,
        pow2(32) == 0x1_0000_0000,
{
    lemma2_to64();
}

/// Powers of two grow with the exponent.
pub proof fn lemma_pow2_bounded(e: nat, limit: nat)
    requires
        e <= limit,
    ensures
        1 <= pow2(e) <= pow2(limit),
{
    vstd::arithmetic::power2::lemma_pow2_pos(e);
    if e < limit {
        vstd::arithmetic::power2::lemma_pow2_strictly_increases(e, limit);
    }
}

/// A cluster size is itself a power of two.
pub proof fn lemma_cluster_size_is_pow2(a: nat, b: nat)
    ensures
        pow2(a) * pow2(b) == pow2(a + b),
        a + b >= 5 ==> pow2(a + b) % 32 == 0,
{
    vstd::arithmetic::power2::lemma_pow2_adds(a, b);
    if a + b >= 5 {
        vstd::arithmetic::power2::lemma_pow2_adds(5, (a + b - 5) as nat);
        lemma2_to64();
        let q = pow2((a + b - 5) as nat) as int;
        assert((32 * q) % 32 == 0) by (nonlinear_arith);
    }
}

} // verus!
