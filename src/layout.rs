//! On-disk records of a FAT32 volume: boot sector, directory entries and
//! the checksum and name codecs that go with them.
use vstd::prelude::*;
use vstd::slice::slice_subrange;

use crate::block_cache::{BlockCache, Pool};
use crate::block_dev::BlockDevice;
use crate::utils::{
    clone_into_array, le16, le32, push_u16_le, push_u32_le, read_u16_le, read_u32_le, splice,
    u16_at, u32_at,
};

verus! {

/// First signature of the FS-info sector, at offset 0.
pub const LEAD_SIGNATURE: u32 = 0x41615252;

/// Second signature of the FS-info sector, at offset 484.
pub const STRUCT_SIGNATURE: u32 = 0x61417272;

/// FAT entry of a free cluster.
pub const FREE_CLUSTER: u32 = 0x00000000;

/// Smallest FAT entry that ends a chain.
pub const END_CLUSTER: u32 = 0x0FFFFFF8;

/// FAT entry of a bad cluster.
pub const BAD_CLUSTER: u32 = 0x0FFFFFF7;

/// Number of FAT entries in one sector.
pub const FATENTRY_PER_SEC: u32 = 128;

pub const ATTRIBUTE_READ_ONLY: u8 = 0x01;

pub const ATTRIBUTE_HIDDEN: u8 = 0x02;

pub const ATTRIBUTE_SYSTEM: u8 = 0x04;

pub const ATTRIBUTE_VOLUME_ID: u8 = 0x08;

pub const ATTRIBUTE_DIRECTORY: u8 = 0x10;

pub const ATTRIBUTE_ARCHIVE: u8 = 0x20;

/// Attribute byte of a long-name slot.
pub const ATTRIBUTE_LFN: u8 = 0x0F;

/// Size of one directory slot in bytes.
pub const DIRENT_SZ: usize = 32;

pub const SHORT_NAME_LEN: usize = 8;

pub const SHORT_EXT_LEN: usize = 3;

/// Name characters held by one long-name slot.
pub const LONG_NAME_LEN: usize = 13;

pub const ALL_UPPER_CASE: u8 = 0x00;

pub const ALL_LOWER_CASE: u8 = 0x08;

/// First name byte of a deleted slot.
pub const DELETED_MARK: u8 = 0xE5;

/// The boot sector (BIOS parameter block), bytes 0..36 of the volume.
#[derive(Clone, Copy, Debug)]
pub struct FatBS {
    pub unused: [u8; 11],
    pub bytes_per_sector: u16,
    pub sectors_per_cluster: u8,
    pub reserved_sector_count: u16,
    pub table_count: u8,
    pub root_entry_count: u16,
    pub total_sectors_16: u16,
    pub media_type: u8,
    pub table_size_16: u16,
    pub sectors_per_track: u16,
    pub head_side_count: u16,
    pub hidden_sector_count: u32,
    pub total_sectors_32: u32,
}

impl FatBS {
    /// Whether this record holds the fields stored in `b[0..36]`.
    pub open spec fn parsed_from(&self, b: Seq<u8>) -> bool {
        &&& self.unused@ == b.subrange(0, 11)
        &&& self.bytes_per_sector == u16_at(b, 11)
        &&& self.sectors_per_cluster == b[13]
        &&& self.reserved_sector_count == u16_at(b, 14)
        &&& self.table_count == b[16]
        &&& self.root_entry_count == u16_at(b, 17)
        &&& self.total_sectors_16 == u16_at(b, 19)
        &&& self.media_type == b[21]
        &&& self.table_size_16 == u16_at(b, 22)
        &&& self.sectors_per_track == u16_at(b, 24)
        &&& self.head_side_count == u16_at(b, 26)
        &&& self.hidden_sector_count == u32_at(b, 28)
        &&& self.total_sectors_32 == u32_at(b, 32)
    }

    /// Decodes the boot sector from the first 36 bytes of `b`.
    pub fn from_bytes(b: &[u8]) -> (r: Self)
        requires
            b@.len() >= 36,
        ensures
            r.parsed_from(b@),
    {
        let unused: [u8; 11] = clone_into_array(slice_subrange(b, 0, 11));
        FatBS {
            unused,
            bytes_per_sector: read_u16_le(b, 11),
            sectors_per_cluster: b[13],
            reserved_sector_count: read_u16_le(b, 14),
            table_count: b[16],
            root_entry_count: read_u16_le(b, 17),
            total_sectors_16: read_u16_le(b, 19),
            media_type: b[21],
            table_size_16: read_u16_le(b, 22),
            sectors_per_track: read_u16_le(b, 24),
            head_side_count: read_u16_le(b, 26),
            hidden_sector_count: read_u32_le(b, 28),
            total_sectors_32: read_u32_le(b, 32),
        }
    }

    /// The sector count of the volume: the 16-bit field, or the 32-bit one when
    /// the former is zero.
    pub fn total_sectors(&self) -> (r: u32)
        ensures
            r == (if self.total_sectors_16 == 0 {
                self.total_sectors_32
            } else {
                self.total_sectors_16 as u32
            }),
    {
        if self.total_sectors_16 == 0 {
            self.total_sectors_32
        } else {
            self.total_sectors_16 as u32
        }
    }

    /// The first sector of the first FAT: right after the reserved sectors.
    pub fn first_fat_sector(&self) -> (r: u32)
        ensures
            r == self.reserved_sector_count as u32,
    {
        self.reserved_sector_count as u32
    }
}

/// The FAT32 extension of the boot sector, bytes 36..67 of the volume.
#[derive(Clone, Copy, Debug)]
pub struct FatExtBS {
    pub table_size_32: u32,
    pub extended_flags: u16,
    pub fat_version: u16,
    pub root_clusters: u32,
    pub fat_info: u16,
    pub backup_bs_sector: u16,
    pub reserved_0: [u8; 12],
    pub drive_number: u8,
    pub reserved_1: u8,
    pub boot_signature: u8,
}

impl FatExtBS {
    /// Whether this record holds the fields stored in `b[36..67]`.
    pub open spec fn parsed_from(&self, b: Seq<u8>) -> bool {
        &&& self.table_size_32 == u32_at(b, 36)
        &&& self.extended_flags == u16_at(b, 40)
        &&& self.fat_version == u16_at(b, 42)
        &&& self.root_clusters == u32_at(b, 44)
        &&& self.fat_info == u16_at(b, 48)
        &&& self.backup_bs_sector == u16_at(b, 50)
        &&& self.reserved_0@ == b.subrange(52, 64)
        &&& self.drive_number == b[64]
        &&& self.reserved_1 == b[65]
        &&& self.boot_signature == b[66]
    }

    /// Decodes the extended boot sector from bytes 36..67 of the boot sector `b`.
    pub fn from_bytes(b: &[u8]) -> (r: Self)
        requires
            b@.len() >= 67,
        ensures
            r.parsed_from(b@),
    {
        let reserved_0: [u8; 12] = clone_into_array(slice_subrange(b, 52, 64));
        FatExtBS {
            table_size_32: read_u32_le(b, 36),
            extended_flags: read_u16_le(b, 40),
            fat_version: read_u16_le(b, 42),
            root_clusters: read_u32_le(b, 44),
            fat_info: read_u16_le(b, 48),
            backup_bs_sector: read_u16_le(b, 50),
            reserved_0,
            drive_number: b[64],
            reserved_1: b[65],
            boot_signature: b[66],
        }
    }

    /// Sectors taken by one FAT.
    pub fn fat_size(&self) -> (r: u32)
        ensures
            r == self.table_size_32,
    {
        self.table_size_32
    }

    /// Sector of the FS-info record.
    pub fn fat_info_sec(&self) -> (r: u32)
        ensures
            r == self.fat_info as u32,
    {
        self.fat_info as u32
    }

    /// First cluster of the root directory.
    pub fn root_clusters(&self) -> (r: u32)
        ensures
            r == self.root_clusters,
    {
        self.root_clusters
    }
}

} // verus!

verus! {

/// Checksum state after the first `n` bytes of `b`: rotate right by one, then
/// add the byte, modulo 256.
pub open spec fn checksum_upto(b: Seq<u8>, n: int) -> u8
    decreases n,
{
    if n <= 0 {
        0
    } else {
        let s = checksum_upto(b, n - 1);
        ((s / 2 + (s % 2) * 128 + b[n - 1]) % 256) as u8
    }
}

/// Checksum of an 11-byte short name (name then extension).
pub open spec fn name_checksum(b: Seq<u8>) -> u8 {
    checksum_upto(b, 11)
}

/// Number of leading bytes of `s` before the first space.
pub open spec fn field_len(s: Seq<u8>) -> int
    decreases s.len(),
{
    if s.len() == 0 {
        0
    } else if s[0] == 0x20 {
        0
    } else {
        1 + field_len(s.drop_first())
    }
}

/// The bytes of a space-padded field before its first space.
pub open spec fn trim_field(s: Seq<u8>) -> Seq<u8> {
    s.take(field_len(s))
}

/// ASCII lower case of one byte.
pub open spec fn ascii_lower(c: u8) -> u8 {
    if 0x41 <= c <= 0x5A {
        (c + 32) as u8
    } else {
        c
    }
}

/// ASCII upper case of one byte.
pub open spec fn ascii_upper(c: u8) -> u8 {
    if 0x61 <= c <= 0x7A {
        (c - 32) as u8
    } else {
        c
    }
}

/// `base` then, where the extension is not empty, a dot and the extension.
pub open spec fn dotted(base: Seq<u8>, ext: Seq<u8>) -> Seq<u8> {
    if ext.len() == 0 {
        base
    } else {
        base + seq![0x2Eu8] + ext
    }
}

/// A date and time as (year, month, day, hour, minute, second, seconds since
/// 1970 counted with 365-day years and 30-day months).
pub open spec fn fat_timestamp(date: u16, time: u16) -> (u32, u32, u32, u32, u32, u32, u64) {
    let year = date / 512 + 1980;
    let month = date / 32 % 16;
    let day = date % 32;
    let hour = time / 2048;
    let min = time / 32 % 64;
    let sec = time % 32 * 2;
    let long_sec = ((((year - 1970) * 365 + month * 30 + day) * 24 + hour) * 3600 + min * 60
        + sec);
    (year as u32, month as u32, day as u32, hour as u32, min as u32, sec as u32, long_sec as u64)
}

proof fn lemma_field_len(s: Seq<u8>, i: int)
    requires
        0 <= i <= s.len(),
        forall|j: int| 0 <= j < i ==> s[j] != 0x20,
        i == s.len() || s[i] == 0x20,
    ensures
        field_len(s) == i,
    decreases s.len(),
{
    if s.len() > 0 && i > 0 {
        lemma_field_len(s.drop_first(), i - 1);
    }
}

proof fn lemma_field_len_bound(s: Seq<u8>)
    ensures
        0 <= field_len(s) <= s.len(),
    decreases s.len(),
{
    if s.len() > 0 && s[0] != 0x20 {
        lemma_field_len_bound(s.drop_first());
    }
}

/// Number of leading bytes of `s` before the first space.
fn field_len_exec(s: &[u8]) -> (r: usize)
    ensures
        r == field_len(s@),
{
    let mut i: usize = 0;
    while i < s.len() && s[i] != 0x20
        invariant
            i <= s@.len(),
            forall|j: int| 0 <= j < i ==> s@[j] != 0x20,
        decreases s@.len() - i,
    {
        i += 1;
    }
    proof {
        lemma_field_len(s@, i as int);
    }
    i
}

/// Appends `s[0..n]`, each byte lower-cased when `lower` holds.
fn push_bytes(out: &mut Vec<u8>, s: &[u8], n: usize, lower: bool)
    requires
        n <= s@.len(),
    ensures
        final(out)@ == old(out)@ + (if lower {
            s@.take(n as int).map_values(|c: u8| ascii_lower(c))
        } else {
            s@.take(n as int)
        }),
{
    let ghost start = out@;
    let ghost want = if lower {
        s@.take(n as int).map_values(|c: u8| ascii_lower(c))
    } else {
        s@.take(n as int)
    };
    let mut i: usize = 0;
    while i < n
        invariant
            i <= n <= s@.len(),
            want.len() == n,
            want == (if lower {
                s@.take(n as int).map_values(|c: u8| ascii_lower(c))
            } else {
                s@.take(n as int)
            }),
            out@ == start + want.take(i as int),
        decreases n - i,
    {
        let c = s[i];
        let d: u8 = if lower && 0x41 <= c && c <= 0x5A {
            c + 32
        } else {
            c
        };
        out.push(d);
        assert(want.take(i + 1) =~= want.take(i as int).push(d));
        i += 1;
    }
    assert(want.take(n as int) =~= want);
}

/// A short (8.3) directory entry, 32 bytes on disk.
#[derive(Clone, Copy, Debug)]
pub struct ShortDirEntry {
    pub name: [u8; 8],
    pub extension: [u8; 3],
    pub attribute: u8,
    pub winnt_reserved: u8,
    pub creation_tenths: u8,
    pub creation_time: u16,
    pub creation_date: u16,
    pub last_acc_date: u16,
    pub cluster_high: u16,
    pub modification_time: u16,
    pub modification_date: u16,
    pub cluster_low: u16,
    pub size: u32,
}

impl ShortDirEntry {
    /// The 32 bytes of this entry on disk.
    pub open spec fn spec_bytes(&self) -> Seq<u8> {
        self.name@ + self.extension@ + seq![
            self.attribute,
            self.winnt_reserved,
            self.creation_tenths,
        ] + le16(self.creation_time) + le16(self.creation_date) + le16(self.last_acc_date)
            + le16(self.cluster_high) + le16(self.modification_time) + le16(
            self.modification_date,
        ) + le16(self.cluster_low) + le32(self.size)
    }

    /// Whether this entry holds the fields stored in `b[0..32]`.
    pub open spec fn parsed_from(&self, b: Seq<u8>) -> bool {
        &&& self.name@ == b.subrange(0, 8)
        &&& self.extension@ == b.subrange(8, 11)
        &&& self.attribute == b[11]
        &&& self.winnt_reserved == b[12]
        &&& self.creation_tenths == b[13]
        &&& self.creation_time == u16_at(b, 14)
        &&& self.creation_date == u16_at(b, 16)
        &&& self.last_acc_date == u16_at(b, 18)
        &&& self.cluster_high == u16_at(b, 20)
        &&& self.modification_time == u16_at(b, 22)
        &&& self.modification_date == u16_at(b, 24)
        &&& self.cluster_low == u16_at(b, 26)
        &&& self.size == u32_at(b, 28)
    }

    /// The cluster number held in the two halves.
    pub open spec fn spec_first_cluster(&self) -> u32 {
        (self.cluster_high as int * 65536 + self.cluster_low as int) as u32
    }

    /// The 11 name bytes: name then extension.
    pub open spec fn name_bytes(&self) -> Seq<u8> {
        self.name@ + self.extension@
    }

    /// The name as `BASE.EXT`, padding removed, as stored.
    pub open spec fn spec_name_upper(&self) -> Seq<u8> {
        dotted(trim_field(self.name@), trim_field(self.extension@))
    }

    /// The name as `base.ext`, padding removed, lower-cased.
    pub open spec fn spec_name_lower(&self) -> Seq<u8> {
        self.spec_name_upper().map_values(|c: u8| ascii_lower(c))
    }

    /// All fields zero.
    pub open spec fn is_zeroed(&self) -> bool {
        &&& self.name@ == Seq::new(8, |i: int| 0u8)
        &&& self.extension@ == Seq::new(3, |i: int| 0u8)
        &&& self.attribute == 0
        &&& self.fresh_fields()
        &&& self.creation_date == 0
    }

    /// The fields that a new entry starts with at zero.
    pub open spec fn fresh_fields(&self) -> bool {
        &&& self.winnt_reserved == 0
        &&& self.creation_tenths == 0
        &&& self.creation_time == 0
        &&& self.last_acc_date == 0
        &&& self.cluster_high == 0
        &&& self.modification_time == 0
        &&& self.modification_date == 0
        &&& self.cluster_low == 0
        &&& self.size == 0
    }

    /// A new entry with the given name, extension and attribute: no cluster,
    /// size zero, creation date 0x529c.
    pub open spec fn is_new(&self, name: Seq<u8>, ext: Seq<u8>, attribute: u8) -> bool {
        &&& self.name@ == name.take(8)
        &&& self.extension@ == ext.take(3)
        &&& self.attribute == attribute
        &&& self.creation_date == 0x529c
        &&& self.fresh_fields()
    }

    /// An entry with every field zero.
    pub fn empty() -> (r: Self)
        ensures
            r.is_zeroed(),
    {
        let r = Self {
            name: [0;8],
            extension: [0;3],
            attribute: 0,
            winnt_reserved: 0,
            creation_tenths: 0,
            creation_time: 0,
            creation_date: 0,
            last_acc_date: 0,
            cluster_high: 0,
            modification_time: 0,
            modification_date: 0,
            cluster_low: 0,
            size: 0,
        };
        assert(r.name@ =~= Seq::new(8, |i: int| 0u8));
        assert(r.extension@ =~= Seq::new(3, |i: int| 0u8));
        r
    }

    /// A new entry for a file or directory; its clusters come later.
    pub fn new(name_: &[u8], extension_: &[u8], attribute: u8) -> (r: Self)
        requires
            name_@.len() >= 8,
            extension_@.len() >= 3,
        ensures
            r.is_new(name_@, extension_@, attribute),
    {
        let name: [u8; 8] = clone_into_array(slice_subrange(name_, 0, 8));
        let extension: [u8; 3] = clone_into_array(slice_subrange(extension_, 0, 3));
        Self {
            name,
            extension,
            attribute,
            winnt_reserved: 0,
            creation_tenths: 0,
            creation_time: 0,
            creation_date: 0x529c,
            last_acc_date: 0,
            cluster_high: 0,
            modification_time: 0,
            modification_date: 0,
            cluster_low: 0,
            size: 0,
        }
    }

    /// Makes this entry a new one, as `new` does.
    pub fn initialize(&mut self, name_: &[u8], extension_: &[u8], attribute: u8)
        requires
            name_@.len() >= 8,
            extension_@.len() >= 3,
        ensures
            final(self).is_new(name_@, extension_@, attribute),
    {
        *self = Self::new(name_, extension_, attribute);
    }

    /// Decodes an entry from the first 32 bytes of `b`.
    pub fn from_bytes(b: &[u8]) -> (r: Self)
        requires
            b@.len() >= 32,
        ensures
            r.parsed_from(b@),
    {
        Self {
            name: clone_into_array(slice_subrange(b, 0, 8)),
            extension: clone_into_array(slice_subrange(b, 8, 11)),
            attribute: b[11],
            winnt_reserved: b[12],
            creation_tenths: b[13],
            creation_time: read_u16_le(b, 14),
            creation_date: read_u16_le(b, 16),
            last_acc_date: read_u16_le(b, 18),
            cluster_high: read_u16_le(b, 20),
            modification_time: read_u16_le(b, 22),
            modification_date: read_u16_le(b, 24),
            cluster_low: read_u16_le(b, 26),
            size: read_u32_le(b, 28),
        }
    }

    /// The 32 bytes of this entry on disk.
    pub fn as_bytes(&self) -> (r: Vec<u8>)
        ensures
            r@ == self.spec_bytes(),
            r@.len() == DIRENT_SZ,
    {
        let mut r: Vec<u8> = Vec::new();
        let mut i: usize = 0;
        while i < 8
            invariant
                i <= 8,
                r@ == self.name@.take(i as int),
            decreases 8 - i,
        {
            r.push(self.name[i]);
            assert(self.name@.take(i + 1) =~= self.name@.take(i as int).push(self.name@[i as int]));
            i += 1;
        }
        assert(self.name@.take(8) =~= self.name@);
        i = 0;
        while i < 3
            invariant
                i <= 3,
                r@ == self.name@ + self.extension@.take(i as int),
            decreases 3 - i,
        {
            r.push(self.extension[i]);
            assert(self.extension@.take(i + 1) =~= self.extension@.take(i as int).push(
                self.extension@[i as int],
            ));
            i += 1;
        }
        assert(self.extension@.take(3) =~= self.extension@);
        r.push(self.attribute);
        r.push(self.winnt_reserved);
        r.push(self.creation_tenths);
        assert(r@ =~= self.name@ + self.extension@ + seq![
            self.attribute,
            self.winnt_reserved,
            self.creation_tenths,
        ]);
        push_u16_le(&mut r, self.creation_time);
        push_u16_le(&mut r, self.creation_date);
        push_u16_le(&mut r, self.last_acc_date);
        push_u16_le(&mut r, self.cluster_high);
        push_u16_le(&mut r, self.modification_time);
        push_u16_le(&mut r, self.modification_date);
        push_u16_le(&mut r, self.cluster_low);
        push_u32_le(&mut r, self.size);
        r
    }

    /// Clusters needed for the current size: the size divided by the cluster
    /// size, rounded up.
    pub fn data_clusters(&self, bytes_per_cluster: u32) -> (r: u32)
        requires
            bytes_per_cluster > 0,
        ensures
            r as int == (self.size as int + bytes_per_cluster - 1) / bytes_per_cluster as int,
    {
        let q = self.size / bytes_per_cluster;
        let m = self.size % bytes_per_cluster;
        proof {
            let s = self.size as int;
            let c = bytes_per_cluster as int;
            assert((s + c - 1) / c == s / c + (if s % c == 0 { 0int } else { 1int }))
                by (nonlinear_arith)
                requires
                    c > 0,
                    s >= 0,
            ;
            assert(s % c != 0 ==> s / c < 0xFFFF_FFFF) by (nonlinear_arith)
                requires
                    c > 0,
                    0 <= s <= 0xFFFF_FFFF,
            ;
        }
        if m == 0 {
            q
        } else {
            q + 1
        }
    }

    pub fn is_dir(&self) -> (r: bool)
        ensures
            r == (self.attribute & ATTRIBUTE_DIRECTORY != 0),
    {
        self.attribute & ATTRIBUTE_DIRECTORY != 0
    }

    pub fn is_valid(&self) -> (r: bool)
        ensures
            r == (self.name[0] != DELETED_MARK),
    {
        self.name[0] != DELETED_MARK
    }

    pub fn is_deleted(&self) -> (r: bool)
        ensures
            r == (self.name[0] == DELETED_MARK),
    {
        self.name[0] == DELETED_MARK
    }

    /// Whether this slot was never used: it ends its directory.
    pub fn is_empty(&self) -> (r: bool)
        ensures
            r == (self.name[0] == 0),
    {
        self.name[0] == 0
    }

    pub fn is_file(&self) -> (r: bool)
        ensures
            r == (self.attribute & ATTRIBUTE_DIRECTORY == 0),
    {
        self.attribute & ATTRIBUTE_DIRECTORY == 0
    }

    /// Whether the slot is in fact a long-name slot.
    pub fn is_long(&self) -> (r: bool)
        ensures
            r == (self.attribute == ATTRIBUTE_LFN),
    {
        self.attribute == ATTRIBUTE_LFN
    }

    pub fn attribute(&self) -> (r: u8)
        ensures
            r == self.attribute,
    {
        self.attribute
    }

    pub fn get_creation_time(&self) -> (r: (u32, u32, u32, u32, u32, u32, u64))
        ensures
            r == fat_timestamp(self.creation_date, self.creation_time),
    {
        timestamp(self.creation_date, self.creation_time)
    }

    pub fn get_modification_time(&self) -> (r: (u32, u32, u32, u32, u32, u32, u64))
        ensures
            r == fat_timestamp(self.modification_date, self.modification_time),
    {
        timestamp(self.modification_date, self.modification_time)
    }

    /// The last access date; the time of day is not recorded and reads as zero.
    pub fn get_accessed_time(&self) -> (r: (u32, u32, u32, u32, u32, u32, u64))
        ensures
            r == fat_timestamp(self.last_acc_date, 0),
    {
        timestamp(self.last_acc_date, 0)
    }

    /// The first cluster of the entry's data, 0 for none.
    pub fn first_cluster(&self) -> (r: u32)
        ensures
            r == self.spec_first_cluster(),
    {
        (self.cluster_high as u32) * 65536 + (self.cluster_low as u32)
    }

    /// The name as stored: `BASE.EXT` without padding.
    pub fn get_name_uppercase(&self) -> (r: Vec<u8>)
        ensures
            r@ == self.spec_name_upper(),
    {
        self.short_name(false)
    }

    /// The name in lower case: `base.ext` without padding.
    pub fn get_name_lowercase(&self) -> (r: Vec<u8>)
        ensures
            r@ == self.spec_name_lower(),
    {
        self.short_name(true)
    }

    fn short_name(&self, lower: bool) -> (r: Vec<u8>)
        ensures
            r@ == (if lower {
                self.spec_name_lower()
            } else {
                self.spec_name_upper()
            }),
    {
        let n = field_len_exec(&self.name);
        let e = field_len_exec(&self.extension);
        proof {
            lemma_field_len_bound(self.name@);
            lemma_field_len_bound(self.extension@);
        }
        let mut r: Vec<u8> = Vec::new();
        push_bytes(&mut r, &self.name, n, lower);
        if e > 0 {
            r.push(0x2E);
            push_bytes(&mut r, &self.extension, e, lower);
        }
        let ghost base = trim_field(self.name@);
        let ghost ext = trim_field(self.extension@);
        proof {
            if e > 0 {
                assert(dotted(base, ext).map_values(|c: u8| ascii_lower(c)) =~= base.map_values(
                    |c: u8| ascii_lower(c),
                ) + seq![0x2Eu8] + ext.map_values(|c: u8| ascii_lower(c)));
            }
        }
        if lower {
            assert(r@ =~= self.spec_name_lower());
        } else {
            assert(r@ =~= self.spec_name_upper());
        }
        r
    }

    /// The checksum of the 11 name bytes that each long-name slot of this
    /// entry carries.
    pub fn checksum(&self) -> (r: u8)
        ensures
            r == name_checksum(self.name_bytes()),
    {
        let mut sum: u8 = 0;
        let mut i: usize = 0;
        let ghost b = self.name_bytes();
        while i < 11
            invariant
                i <= 11,
                b == self.name_bytes(),
                b.len() == 11,
                sum == checksum_upto(b, i as int),
            decreases 11 - i,
        {
            let c: u8 = if i < 8 {
                self.name[i]
            } else {
                self.extension[i - 8]
            };
            assert(c == b[i as int]);
            let rot: u8 = sum / 2 + (sum % 2) * 128;
            sum = ((rot as u16 + c as u16) % 256) as u8;
            i += 1;
        }
        sum
    }

    pub fn set_size(&mut self, size: u32)
        ensures
            *final(self) == (ShortDirEntry { size, ..*old(self) }),
    {
        self.size = size;
    }

    pub fn get_size(&self) -> (r: u32)
        ensures
            r == self.size,
    {
        self.size
    }

    /// Records the case flags of the name.
    pub fn set_case(&mut self, case: u8)
        ensures
            *final(self) == (ShortDirEntry { winnt_reserved: case, ..*old(self) }),
    {
        self.winnt_reserved = case;
    }

    /// Stores `cluster` as the entry's first cluster, split in two halves.
    pub fn set_first_cluster(&mut self, cluster: u32)
        ensures
            final(self).spec_first_cluster() == cluster,
            *final(self) == (ShortDirEntry {
                cluster_high: final(self).cluster_high,
                cluster_low: final(self).cluster_low,
                ..*old(self)
            }),
    {
        self.cluster_high = (cluster / 65536) as u16;
        self.cluster_low = (cluster % 65536) as u16;
    }

    /// Empties the entry: no data, no cluster; the slot stays in use.
    pub fn clear(&mut self)
        ensures
            *final(self) == (ShortDirEntry { size: 0, cluster_high: 0, cluster_low: 0, ..*old(self) }),
            final(self).spec_first_cluster() == 0,
    {
        self.size = 0;
        self.set_first_cluster(0);
    }

    /// Marks the slot deleted and drops its data.
    pub fn delete(&mut self)
        ensures
            final(self).size == 0,
            final(self).spec_first_cluster() == 0,
            final(self).name@ == old(self).name@.update(0, DELETED_MARK),
            final(self).extension == old(self).extension,
            final(self).attribute == old(self).attribute,
    {
        self.size = 0;
        self.name[0] = DELETED_MARK;
        self.set_first_cluster(0);
    }
}

/// Decodes a packed date and time.
fn timestamp(date: u16, time: u16) -> (r: (u32, u32, u32, u32, u32, u32, u64))
    ensures
        r == fat_timestamp(date, time),
{
    let year: u32 = (date / 512) as u32 + 1980;
    let month: u32 = (date / 32 % 16) as u32;
    let day: u32 = (date % 32) as u32;
    let hour: u32 = (time / 2048) as u32;
    let min: u32 = (time / 32 % 64) as u32;
    let sec: u32 = (time % 32 * 2) as u32;
    let long_sec: u64 = ((((year as u64 - 1970) * 365 + month as u64 * 30 + day as u64) * 24
        + hour as u64) * 3600 + min as u64 * 60 + sec as u64);
    (year, month, day, hour, min, sec, long_sec)
}

} // verus!

verus! {

/// Whether a zero byte occurs among the first `k` bytes of `buf`.
pub open spec fn ended_before(buf: Seq<u8>, k: int) -> bool {
    exists|j: int| 0 <= j < k && j < buf.len() && buf[j] == 0
}

/// A name chunk that `LongDirEntry::initialize` can take: 13 bytes, or a zero
/// byte that ends it.
pub open spec fn chunk_ok(buf: Seq<u8>) -> bool {
    buf.len() >= 13 || exists|j: int| 0 <= j < buf.len() && buf[j] == 0
}

/// The 26 name bytes of a long slot holding `buf`: one 2-byte code unit per
/// character up to and with the first zero byte, then 0xFF padding.
pub open spec fn lfn_units(buf: Seq<u8>) -> Seq<u8> {
    Seq::new(
        26,
        |p: int|
            if ended_before(buf, p / 2) {
                0xFFu8
            } else if p % 2 == 0 {
                buf[p / 2]
            } else {
                0u8
            },
    )
}

/// A byte that is part of a name: neither padding nor terminator.
pub open spec fn is_name_char(c: u8) -> bool {
    c != 0xFF && c != 0
}

/// `is_name_char` as a predicate.
pub open spec fn name_char() -> spec_fn(u8) -> bool {
    |c: u8| is_name_char(c)
}

/// A long (VFAT) name slot, 32 bytes on disk.
#[derive(Clone, Copy, Debug)]
pub struct LongDirEntry {
    pub order: u8,
    pub name1: [u8; 10],
    pub attribute: u8,
    pub type_: u8,
    pub check_sum: u8,
    pub name2: [u8; 12],
    pub zero: [u8; 2],
    pub name3: [u8; 4],
}

impl LongDirEntry {
    /// The 26 name bytes in order.
    pub open spec fn units(&self) -> Seq<u8> {
        self.name1@ + self.name2@ + self.name3@
    }

    /// The 32 bytes of this slot on disk.
    pub open spec fn spec_bytes(&self) -> Seq<u8> {
        seq![self.order] + self.name1@ + seq![self.attribute, self.type_, self.check_sum]
            + self.name2@ + self.zero@ + self.name3@
    }

    /// Whether this slot holds the fields stored in `b[0..32]`.
    pub open spec fn parsed_from(&self, b: Seq<u8>) -> bool {
        &&& self.order == b[0]
        &&& self.name1@ == b.subrange(1, 11)
        &&& self.attribute == b[11]
        &&& self.type_ == b[12]
        &&& self.check_sum == b[13]
        &&& self.name2@ == b.subrange(14, 26)
        &&& self.zero@ == b.subrange(26, 28)
        &&& self.name3@ == b.subrange(28, 32)
    }

    /// The name characters of this slot: padding and terminator dropped.
    pub open spec fn spec_name(&self) -> Seq<u8> {
        self.units().filter(name_char())
    }

    /// A slot with every byte zero.
    pub fn empty() -> (r: Self)
        ensures
            r.spec_bytes() == Seq::new(32, |i: int| 0u8),
    {
        let r = Self {
            order: 0,
            name1: [0;10],
            attribute: 0,
            type_: 0,
            check_sum: 0,
            name2: [0;12],
            zero: [0;2],
            name3: [0;4],
        };
        assert(r.spec_bytes() =~= Seq::new(32, |i: int| 0u8));
        r
    }

    /// Decodes a slot from the first 32 bytes of `b`.
    pub fn from_bytes(b: &[u8]) -> (r: Self)
        requires
            b@.len() >= 32,
        ensures
            r.parsed_from(b@),
    {
        Self {
            order: b[0],
            name1: clone_into_array(slice_subrange(b, 1, 11)),
            attribute: b[11],
            type_: b[12],
            check_sum: b[13],
            name2: clone_into_array(slice_subrange(b, 14, 26)),
            zero: clone_into_array(slice_subrange(b, 26, 28)),
            name3: clone_into_array(slice_subrange(b, 28, 32)),
        }
    }

    /// The 32 bytes of this slot on disk.
    pub fn as_bytes(&self) -> (r: Vec<u8>)
        ensures
            r@ == self.spec_bytes(),
            r@.len() == DIRENT_SZ,
    {
        let mut r: Vec<u8> = Vec::new();
        r.push(self.order);
        append_bytes(&mut r, &self.name1);
        r.push(self.attribute);
        r.push(self.type_);
        r.push(self.check_sum);
        append_bytes(&mut r, &self.name2);
        append_bytes(&mut r, &self.zero);
        append_bytes(&mut r, &self.name3);
        assert(r@ =~= self.spec_bytes());
        r
    }

    pub fn attribute(&self) -> (r: u8)
        ensures
            r == self.attribute,
    {
        self.attribute
    }

    /// Whether this slot was never used.
    pub fn is_empty(&self) -> (r: bool)
        ensures
            r == (self.order == 0),
    {
        self.order == 0
    }

    pub fn is_valid(&self) -> (r: bool)
        ensures
            r == (self.order != DELETED_MARK),
    {
        self.order != DELETED_MARK
    }

    pub fn is_deleted(&self) -> (r: bool)
        ensures
            r == (self.order == DELETED_MARK),
    {
        self.order == DELETED_MARK
    }

    /// Fills the slot with one chunk of a long name (ASCII, one byte per
    /// character), its order byte and the checksum of the short entry.
    pub fn initialize(&mut self, name_buffer: &[u8], order: u8, check_sum: u8)
        requires
            chunk_ok(name_buffer@),
        ensures
            final(self).units() == lfn_units(name_buffer@),
            final(self).order == order,
            final(self).check_sum == check_sum,
            final(self).attribute == ATTRIBUTE_LFN,
            final(self).type_ == 0,
            final(self).zero@ == seq![0u8, 0u8],
    {
        let ghost buf = name_buffer@;
        let mut units: Vec<u8> = Vec::new();
        let mut ended = false;
        let mut k: usize = 0;
        while k < 13
            invariant
                k <= 13,
                buf == name_buffer@,
                chunk_ok(buf),
                ended == ended_before(buf, k as int),
                units@ == lfn_units(buf).take(2 * k as int),
            decreases 13 - k,
        {
            if ended {
                units.push(0xFF);
                units.push(0xFF);
            } else {
                proof {
                    if k >= buf.len() {
                        let j = choose|j: int| 0 <= j < buf.len() && buf[j] == 0;
                        assert(j < k);
                    }
                }
                let c = name_buffer[k];
                units.push(c);
                units.push(0);
                if c == 0 {
                    ended = true;
                }
            }
            assert(units@ =~= lfn_units(buf).take(2 * (k + 1) as int));
            assert(ended == ended_before(buf, k + 1)) by {
                if !ended_before(buf, k as int) && ended_before(buf, k + 1) {
                    let j = choose|j: int| 0 <= j < k + 1 && j < buf.len() && buf[j] == 0;
                    assert(j == k);
                }
            }
            k += 1;
        }
        assert(units@ =~= lfn_units(buf));
        let name1: [u8; 10] = clone_into_array(slice_subrange(units.as_slice(), 0, 10));
        let name2: [u8; 12] = clone_into_array(slice_subrange(units.as_slice(), 10, 22));
        let name3: [u8; 4] = clone_into_array(slice_subrange(units.as_slice(), 22, 26));
        *self = Self {
            order,
            name1,
            attribute: ATTRIBUTE_LFN,
            type_: 0,
            check_sum,
            name2,
            zero: [0u8;2],
            name3,
        };
        assert(self.units() =~= lfn_units(buf));
        assert(self.zero@ =~= seq![0u8, 0u8]);
    }

    /// Has no effect: a long slot keeps its bytes until it is deleted.
    pub fn clear(&mut self)
        ensures
            *final(self) == *old(self),
    {
    }

    /// Marks the slot deleted.
    pub fn delete(&mut self)
        ensures
            *final(self) == (LongDirEntry { order: DELETED_MARK, ..*old(self) }),
    {
        self.order = DELETED_MARK;
    }

    /// The low byte of each of the 13 code units, padding included.
    pub fn get_name_raw(&self) -> (r: Vec<u8>)
        ensures
            r@ == Seq::new(13, |k: int| self.units()[2 * k]),
    {
        let mut r: Vec<u8> = Vec::new();
        let mut k: usize = 0;
        while k < 13
            invariant
                k <= 13,
                r@ == Seq::new(k as nat, |j: int| self.units()[2 * j]),
            decreases 13 - k,
        {
            let c = if k < 5 {
                self.name1[2 * k]
            } else if k < 11 {
                self.name2[2 * (k - 5)]
            } else {
                self.name3[2 * (k - 11)]
            };
            assert(c == self.units()[2 * k as int]);
            r.push(c);
            assert(r@ =~= Seq::new((k + 1) as nat, |j: int| self.units()[2 * j]));
            k += 1;
        }
        r
    }

    /// The name characters of this slot, with padding and terminator removed.
    pub fn get_name_format(&self) -> (r: Vec<u8>)
        ensures
            r@ == self.spec_name(),
    {
        let ghost all = self.units();
        let mut r: Vec<u8> = Vec::new();
        let mut p: usize = 0;
        while p < 26
            invariant
                p <= 26,
                all == self.units(),
                all.len() == 26,
                r@ == all.take(p as int).filter(name_char()),
            decreases 26 - p,
        {
            let c = if p < 10 {
                self.name1[p]
            } else if p < 22 {
                self.name2[p - 10]
            } else {
                self.name3[p - 22]
            };
            assert(c == all[p as int]);
            assert(all.take(p + 1).drop_last() =~= all.take(p as int));
            assert(all.take(p + 1).last() == c);
            if c != 0xFF && c != 0 {
                r.push(c);
            }
            assert(r@ == all.take(p + 1).filter(name_char())) by {
                reveal_with_fuel(Seq::filter, 1);
            }
            p += 1;
        }
        assert(all.take(26) =~= all);
        r
    }

    pub fn get_order(&self) -> (r: u8)
        ensures
            r == self.order,
    {
        self.order
    }

    pub fn get_checksum(&self) -> (r: u8)
        ensures
            r == self.check_sum,
    {
        self.check_sum
    }
}

/// Appends all of `s`.
fn append_bytes(out: &mut Vec<u8>, s: &[u8])
    ensures
        final(out)@ == old(out)@ + s@,
{
    let ghost start = out@;
    let mut i: usize = 0;
    while i < s.len()
        invariant
            i <= s@.len(),
            out@ == start + s@.take(i as int),
        decreases s@.len() - i,
    {
        out.push(s[i]);
        assert(s@.take(i + 1) =~= s@.take(i as int).push(s@[i as int]));
        i += 1;
    }
    assert(s@.take(s@.len() as int) =~= s@);
}

} // verus!

verus! {

/// The FS-info sector: free-cluster count and first-free hint between two
/// signatures. Only its position is held; the fields are read and written
/// through the cache.
#[derive(Clone, Copy, Debug)]
pub struct FSInfo {
    pub sector_num: u32,
}

/// Byte offset of the free-cluster count in the FS-info sector.
pub const FSI_FREE_COUNT: usize = 488;

/// Byte offset of the first-free hint in the FS-info sector.
pub const FSI_NEXT_FREE: usize = 492;

impl FSInfo {
    /// The free-cluster count in the volume `v`.
    pub open spec fn free_count(&self, v: Seq<Seq<u8>>) -> u32 {
        u32_at(v[self.sector_num as int], FSI_FREE_COUNT as int)
    }

    /// The first-free hint in the volume `v`.
    pub open spec fn hint(&self, v: Seq<Seq<u8>>) -> u32 {
        u32_at(v[self.sector_num as int], FSI_NEXT_FREE as int)
    }

    /// Whether both signatures are in place in the volume `v`.
    pub open spec fn signed(&self, v: Seq<Seq<u8>>) -> bool {
        &&& u32_at(v[self.sector_num as int], 0) == LEAD_SIGNATURE
        &&& u32_at(v[self.sector_num as int], 484) == STRUCT_SIGNATURE
    }

    /// `v` with the 32-bit field at `off` of the FS-info sector set to `x`.
    pub open spec fn set_field(&self, v: Seq<Seq<u8>>, off: int, x: u32) -> Seq<Seq<u8>> {
        v.update(self.sector_num as int, splice(v[self.sector_num as int], off, le32(x)))
    }

    pub fn new(sector_num: u32) -> (r: Self)
        ensures
            r.sector_num == sector_num,
    {
        Self { sector_num }
    }

    fn read_field<D: BlockDevice>(&self, off: usize, cache: &mut BlockCache<D>) -> (r: u32)
        requires
            old(cache).wf(),
            self.sector_num < old(cache).view().len(),
            off + 4 <= 512,
        ensures
            final(cache).wf(),
            final(cache).same_shape(old(cache)),
            final(cache).absolute() == old(cache).absolute(),
            final(cache).view() == old(cache).view(),
            r == u32_at(old(cache).view()[self.sector_num as int], off as int),
    {
        proof {
            cache.lemma_wf();
        }
        let b = cache.read(self.sector_num as usize, off, 4, Pool::Info);
        read_u32_le(b.as_slice(), 0)
    }

    fn write_field<D: BlockDevice>(&self, off: usize, x: u32, cache: &mut BlockCache<D>)
        requires
            old(cache).wf(),
            self.sector_num < old(cache).view().len(),
            off + 4 <= 512,
        ensures
            final(cache).wf(),
            final(cache).same_shape(old(cache)),
            final(cache).view() == self.set_field(old(cache).view(), off as int, x),
    {
        let mut bytes: Vec<u8> = Vec::new();
        push_u32_le(&mut bytes, x);
        assert(bytes@ =~= le32(x));
        cache.write(self.sector_num as usize, off, bytes.as_slice(), Pool::Info);
    }

    /// Whether both signatures are in place.
    pub fn check_signature<D: BlockDevice>(&self, cache: &mut BlockCache<D>) -> (r: bool)
        requires
            old(cache).wf(),
            self.sector_num < old(cache).view().len(),
        ensures
            final(cache).wf(),
            final(cache).same_shape(old(cache)),
            final(cache).absolute() == old(cache).absolute(),
            final(cache).view() == old(cache).view(),
            r == self.signed(old(cache).view()),
    {
        let lead = self.read_field(0, cache);
        let strukt = self.read_field(484, cache);
        lead == LEAD_SIGNATURE && strukt == STRUCT_SIGNATURE
    }

    pub fn read_free_clusters<D: BlockDevice>(&self, cache: &mut BlockCache<D>) -> (r: u32)
        requires
            old(cache).wf(),
            self.sector_num < old(cache).view().len(),
        ensures
            final(cache).wf(),
            final(cache).same_shape(old(cache)),
            final(cache).absolute() == old(cache).absolute(),
            final(cache).view() == old(cache).view(),
            r == self.free_count(old(cache).view()),
    {
        self.read_field(FSI_FREE_COUNT, cache)
    }

    pub fn write_free_clusters<D: BlockDevice>(&self, free_clusters: u32, cache: &mut BlockCache<D>)
        requires
            old(cache).wf(),
            self.sector_num < old(cache).view().len(),
        ensures
            final(cache).wf(),
            final(cache).same_shape(old(cache)),
            final(cache).view() == self.set_field(old(cache).view(), FSI_FREE_COUNT as int, free_clusters),
    {
        self.write_field(FSI_FREE_COUNT, free_clusters, cache)
    }

    pub fn first_free_cluster<D: BlockDevice>(&self, cache: &mut BlockCache<D>) -> (r: u32)
        requires
            old(cache).wf(),
            self.sector_num < old(cache).view().len(),
        ensures
            final(cache).wf(),
            final(cache).same_shape(old(cache)),
            final(cache).absolute() == old(cache).absolute(),
            final(cache).view() == old(cache).view(),
            r == self.hint(old(cache).view()),
    {
        self.read_field(FSI_NEXT_FREE, cache)
    }

    pub fn write_first_free_cluster<D: BlockDevice>(&self, start_cluster: u32, cache: &mut BlockCache<D>)
        requires
            old(cache).wf(),
            self.sector_num < old(cache).view().len(),
        ensures
            final(cache).wf(),
            final(cache).same_shape(old(cache)),
            final(cache).view() == self.set_field(old(cache).view(), FSI_NEXT_FREE as int, start_cluster),
    {
        self.write_field(FSI_NEXT_FREE, start_cluster, cache)
    }
}

} // verus!

verus! {

/// An entry decodes from its own bytes.
pub proof fn lemma_short_parse(e: ShortDirEntry)
    ensures
        e.parsed_from(e.spec_bytes()),
{
    let b = e.spec_bytes();
    assert(b.subrange(0, 8) =~= e.name@);
    assert(b.subrange(8, 11) =~= e.extension@);
    crate::utils::lemma_u16_round_trip(e.creation_time);
    crate::utils::lemma_u16_round_trip(e.creation_date);
    crate::utils::lemma_u16_round_trip(e.last_acc_date);
    crate::utils::lemma_u16_round_trip(e.cluster_high);
    crate::utils::lemma_u16_round_trip(e.modification_time);
    crate::utils::lemma_u16_round_trip(e.modification_date);
    crate::utils::lemma_u16_round_trip(e.cluster_low);
    crate::utils::lemma_u32_round_trip(e.size);
    assert(b.subrange(14, 16) =~= le16(e.creation_time));
    assert(b.subrange(16, 18) =~= le16(e.creation_date));
    assert(b.subrange(18, 20) =~= le16(e.last_acc_date));
    assert(b.subrange(20, 22) =~= le16(e.cluster_high));
    assert(b.subrange(22, 24) =~= le16(e.modification_time));
    assert(b.subrange(24, 26) =~= le16(e.modification_date));
    assert(b.subrange(26, 28) =~= le16(e.cluster_low));
    assert(b.subrange(28, 32) =~= le32(e.size));
}

} // verus!

verus! {

proof fn lemma_filter_push(s: Seq<u8>, x: u8)
    ensures
        s.push(x).filter(name_char()) == if is_name_char(x) {
            s.filter(name_char()).push(x)
        } else {
            s.filter(name_char())
        },
{
    reveal_with_fuel(Seq::filter, 1);
    assert(s.push(x).drop_last() =~= s);
}

/// The chunk stored in a long slot, with its terminator where shorter
/// than 13 bytes.
pub open spec fn stored_chunk(c: Seq<u8>) -> Seq<u8> {
    if c.len() < 13 {
        c.push(0)
    } else {
        c
    }
}

proof fn lemma_units_prefix(c: Seq<u8>, q: int)
    requires
        0 < c.len() <= 13,
        forall|i: int| 0 <= i < c.len() ==> is_name_char(#[trigger] c[i]),
        0 <= q <= c.len(),
    ensures
        lfn_units(stored_chunk(c)).take(2 * q).filter(name_char()) == c.take(q),
    decreases q,
{
    let buf = stored_chunk(c);
    let u = lfn_units(buf);
    if q == 0 {
        assert(u.take(0) =~= Seq::<u8>::empty());
        assert(c.take(0) =~= Seq::<u8>::empty());
        reveal_with_fuel(Seq::filter, 1);
    } else {
        lemma_units_prefix(c, q - 1);
        let k = q - 1;
        assert(!ended_before(buf, k)) by {
            if ended_before(buf, k) {
                let j = choose|j: int| 0 <= j < k && j < buf.len() && buf[j] == 0;
                assert(buf[j] == c[j]);
            }
        }
        assert(u[2 * k] == c[k]);
        assert(u[2 * k + 1] == 0);
        assert(u.take(2 * k + 1) =~= u.take(2 * k).push(c[k]));
        assert(u.take(2 * k + 2) =~= u.take(2 * k + 1).push(0u8));
        lemma_filter_push(u.take(2 * k), c[k]);
        lemma_filter_push(u.take(2 * k + 1), 0u8);
        assert(c.take(q) =~= c.take(k).push(c[k]));
    }
}

proof fn lemma_units_tail(c: Seq<u8>, p: int)
    requires
        0 < c.len() <= 13,
        forall|i: int| 0 <= i < c.len() ==> is_name_char(#[trigger] c[i]),
        2 * c.len() <= p <= 26,
    ensures
        lfn_units(stored_chunk(c)).take(p).filter(name_char()) == c,
    decreases p - 2 * c.len(),
{
    let buf = stored_chunk(c);
    let u = lfn_units(buf);
    let n = c.len() as int;
    if p == 2 * n {
        lemma_units_prefix(c, n);
        assert(c.take(n) =~= c);
    } else {
        lemma_units_tail(c, p - 1);
        let x = u[p - 1];
        assert(!is_name_char(x)) by {
            let k = (p - 1) / 2;
            assert(n < 13);
            assert(buf[n] == 0);
            if k > n {
                assert(ended_before(buf, k));
            } else {
                assert(k == n);
                assert(!ended_before(buf, k)) by {
                    if ended_before(buf, k) {
                        let j = choose|j: int| 0 <= j < k && j < buf.len() && buf[j] == 0;
                        assert(buf[j] == c[j]);
                    }
                }
            }
        }
        assert(u.take(p) =~= u.take(p - 1).push(x));
        lemma_filter_push(u.take(p - 1), x);
    }
}

/// A name chunk of at most 13 name characters, stored in a long slot with
/// its terminator, reads back as itself: `get_name_format` of a slot that
/// `initialize` filled gives the chunk.
pub proof fn lemma_long_chunk_round_trip(c: Seq<u8>)
    requires
        0 < c.len() <= 13,
        forall|i: int| 0 <= i < c.len() ==> is_name_char(#[trigger] c[i]),
    ensures
        chunk_ok(stored_chunk(c)),
        lfn_units(stored_chunk(c)).filter(name_char()) == c,
{
    let buf = stored_chunk(c);
    if c.len() < 13 {
        assert(buf[c.len() as int] == 0);
    }
    lemma_units_tail(c, 26);
    assert(lfn_units(buf).take(26) =~= lfn_units(buf));
}

} // verus!
