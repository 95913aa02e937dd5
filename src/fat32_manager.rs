//! The mounted volume: geometry, cluster allocation and name handling.
use vstd::prelude::*;

use crate::block_cache::{BlockCache, Pool};
use crate::block_dev::BlockDevice;
use crate::fat::FAT;
use crate::layout::BAD_CLUSTER;
use crate::layout::{FREE_CLUSTER, END_CLUSTER, LEAD_SIGNATURE, STRUCT_SIGNATURE, FSInfo, FatBS, FatExtBS, ShortDirEntry, ATTRIBUTE_DIRECTORY};
use crate::utils::{read_u32_le, splice, u16_at, u32_at};
use crate::BLOCK_SZ;

verus! {

/// Errors surfaced by the driver.
#[derive(Clone, Copy, Debug, PartialEq, Eq, Structural)]
pub enum FsError {
    /// A path component is missing.
    NotFound,
    /// A directory was needed.
    NotADirectory,
    /// A file was needed.
    IsADirectory,
    /// Not enough free clusters.
    NoSpace,
    /// A name component is longer than 255 characters.
    NameTooLong,
    /// A name is empty or holds a zero byte.
    InvalidName,
    /// A directory to remove still has entries.
    NotEmpty,
    /// The on-disk structures are inconsistent.
    Corrupt,
}

/// Every cluster below `n_entry` lies inside a volume of `nsec` sectors.
#[verifier::opaque]
pub open spec fn data_fits(root: int, n_entry: int, spc: int, nsec: int) -> bool {
    root + (n_entry - 2) * spc <= nsec
}

/// Byte offset of the first partition's start sector in sector 0.
pub const PARTITION_START_OFFSET: usize = 0x1C6;

/// A mounted FAT32 volume.
pub struct FAT32Manager<D: BlockDevice> {
    pub cache: BlockCache<D>,
    pub fsinfo: FSInfo,
    pub sectors_per_cluster: u32,
    pub bytes_per_sector: u32,
    pub bytes_per_cluster: u32,
    pub root_sector: u32,
    pub total_sectors: u32,
    pub fat: FAT,
    pub vroot_dirent: ShortDirEntry,
}

/// Whether the boot sector `boot` describes a usable layout on a volume of
/// `nsec` sectors: 512-byte sectors, clusters of at least one sector, two
/// tables of a size the table entries fit, a data region inside the
/// volume that holds at least one cluster.
pub open spec fn layout_ok(boot: Seq<u8>, nsec: int) -> bool {
    let spc = boot[13] as int;
    let fat_n = u32_at(boot, 36) as int;
    let fat1 = u16_at(boot, 14) as int;
    let root = fat1 + 2 * fat_n;
    &&& u16_at(boot, 11) == 512
    &&& spc != 0
    &&& 0 < fat_n <= 0x001F_FFFF
    &&& boot[16] == 2
    &&& root < nsec
    &&& fat_n * 128 >= 3
    &&& (nsec - root) / spc + 2 >= 3
}

/// Whether a device image can be mounted: the partition start that sector 0
/// names lies on the device, the boot sector there describes a usable
/// layout, the FS-info sector lies before the first table, and it carries
/// both signatures.
pub open spec fn mountable(d: Seq<Seq<u8>>) -> bool {
    d.len() > 0 && {
        let start = u32_at(d[0], PARTITION_START_OFFSET as int) as int;
        start < d.len() && {
            let v = d.subrange(start, d.len() as int);
            let boot = v[0];
            let fsi = u16_at(boot, 48) as int;
            &&& layout_ok(boot, v.len() as int)
            &&& fsi < u16_at(boot, 14)
            &&& u32_at(v[fsi], 0) == LEAD_SIGNATURE
            &&& u32_at(v[fsi], 484) == STRUCT_SIGNATURE
        }
    }
}

/// The tables and data region that a boot sector describes on a volume of
/// `nsec` sectors, where they are usable: 512-byte sectors, two tables,
/// and a data region inside the volume. The table is cut to the clusters
/// that the data region holds.
fn volume_layout(bs: &FatBS, ebs: &FatExtBS, nsec: usize, boot: Ghost<Seq<u8>>) -> (r: Option<(FAT, u32)>)
    requires
        bs.parsed_from(boot@),
        ebs.parsed_from(boot@),
        boot@.len() >= 67,
    ensures
        r is Some <==> layout_ok(boot@, nsec as int),
        r matches Some((fat, root)) ==> {
            let spc = bs.sectors_per_cluster as int;
            &&& bs.bytes_per_sector == 512
            &&& spc >= 1
            &&& fat.fits(nsec as int)
            &&& fat.fat1_sector == bs.reserved_sector_count
            &&& fat.n_sectors == ebs.table_size_32
            &&& fat.fat2_sector == fat.fat1_sector + fat.n_sectors
            &&& root == fat.fat1_sector + 2 * fat.n_sectors
            &&& fat.fat1_sector + fat.n_sectors <= fat.fat2_sector
            &&& fat.fat2_sector + fat.n_sectors <= root
            &&& fat.n_entry >= 3
            &&& root + (fat.n_entry - 2) * spc <= nsec
        },
{
    let sectors_per_cluster = bs.sectors_per_cluster as u32;
    let fat_n_sec = ebs.fat_size();
    let fat1_sector = bs.first_fat_sector();
    if bs.bytes_per_sector != 512 || sectors_per_cluster == 0 || fat_n_sec == 0 || fat_n_sec
        > 0x001F_FFFF || bs.table_count != 2 {
        return None;
    }
    let fat2_sector = fat1_sector + fat_n_sec;
    let root_sec = fat2_sector as u64 + fat_n_sec as u64;
    if root_sec >= nsec as u64 {
        return None;
    }
    let root_sec = root_sec as u32;
    let data_clusters = (nsec as u64 - root_sec as u64) / sectors_per_cluster as u64;
    let table_entries = fat_n_sec as u64 * 128;
    let n_entry: u64 = if table_entries < data_clusters + 2 {
        table_entries
    } else {
        data_clusters + 2
    };
    if n_entry < 3 {
        return None;
    }
    proof {
        let d = (nsec - root_sec) as int;
        let c = sectors_per_cluster as int;
        assert((d / c) * c <= d) by (nonlinear_arith)
            requires
                d >= 0,
                c > 0,
        ;
        assert((n_entry - 2) * c <= (d / c) * c) by (nonlinear_arith)
            requires
                n_entry - 2 <= d / c,
                c > 0,
        ;
    }
    Some((FAT::new(fat1_sector, fat2_sector, fat_n_sec, n_entry as u32), root_sec))
}

impl<D: BlockDevice> FAT32Manager<D> {
    /// The volume's sectors as they read through the cache.
    pub open spec fn view(&self) -> Seq<Seq<u8>> {
        self.cache.view()
    }

    /// The layout is consistent: reserved sectors (with FS-info), FAT1, FAT2
    /// and the data region follow each other inside the volume, and every
    /// cluster the table can name lies in the data region.
    pub open spec fn wf(&self) -> bool {
        let nsec = self.view().len() as int;
        &&& self.cache.wf()
        &&& self.bytes_per_sector == BLOCK_SZ
        &&& 1 <= self.sectors_per_cluster <= 255
        &&& self.bytes_per_cluster == self.sectors_per_cluster * BLOCK_SZ
        &&& self.fat.fits(nsec)
        &&& self.fsinfo.sector_num < self.fat.fat1_sector
        &&& self.fat.fat1_sector + self.fat.n_sectors <= self.fat.fat2_sector
        &&& self.fat.fat2_sector + self.fat.n_sectors <= self.root_sector
        &&& self.fat.n_entry >= 3
        &&& data_fits(self.root_sector as int, self.fat.n_entry as int, self.sectors_per_cluster as int, nsec)
        &&& self.vroot_dirent.spec_first_cluster() == 2
        &&& self.vroot_dirent.attribute == ATTRIBUTE_DIRECTORY
    }

    /// The first sector of cluster `c`.
    pub open spec fn cluster_sector(&self, c: int) -> int {
        self.root_sector + (c - 2) * self.sectors_per_cluster
    }

    /// Every sector of cluster `c` reads as zeros in the volume `v`.
    pub open spec fn zeroed_in(&self, v: Seq<Seq<u8>>, c: u32) -> bool {
        forall|s: int|
            self.cluster_sector(c as int) <= s < self.cluster_sector(c as int) + self.sectors_per_cluster
                ==> #[trigger] v[s] == Seq::new(512, |k: int| 0u8)
    }

    /// Whether `alloc_cluster(n)` succeeds: `n` is at least one, within the
    /// free count, and within the free entries of the table.
    pub open spec fn can_alloc(&self, n: u32) -> bool {
        &&& 1 <= n <= self.free_count()
        &&& self.fat.count_free(self.view(), 2, self.fat.n_entry as int) >= n
    }

    /// Free-cluster count recorded in FS-info.
    pub open spec fn free_count(&self) -> u32 {
        self.fsinfo.free_count(self.view())
    }

    /// The chain from cluster `c`.
    pub open spec fn chain(&self, c: u32) -> Seq<u32> {
        self.fat.chain_of(self.view(), c)
    }

    /// Mounts the volume on `device`, caching `capacity` sectors per pool.
    /// Fails with `Corrupt` where the partition start, the geometry or the
    /// FS-info signatures are not those of a FAT32 volume this driver can use.
    pub fn open(device: D, capacity: usize) -> (r: Result<Self, FsError>)
        requires
            crate::block_dev::sectors_ok(device.blocks()),
            capacity >= 1,
        ensures
            r is Err ==> r == Err::<Self, FsError>(FsError::Corrupt),
            r is Ok <==> mountable(device.blocks()),
            r matches Ok(m) ==> {
                let d = device.blocks();
                let start = u32_at(d[0], PARTITION_START_OFFSET as int) as int;
                let boot = m.view()[0];
                &&& m.wf()
                &&& 0 <= start < d.len()
                &&& m.view() == d.subrange(start, d.len() as int)
                &&& m.fsinfo.sector_num == u16_at(boot, 48)
                &&& m.fsinfo.signed(m.view())
                &&& m.sectors_per_cluster == boot[13]
                &&& m.bytes_per_sector == 512
                &&& m.fat.fat1_sector == u16_at(boot, 14)
                &&& m.fat.n_sectors == u32_at(boot, 36)
                &&& m.fat.fat2_sector == m.fat.fat1_sector + m.fat.n_sectors
                &&& m.root_sector == m.fat.fat1_sector + 2 * m.fat.n_sectors
                &&& m.vroot_dirent.name@ == seq![0x2Fu8, 0x20, 0x20, 0x20, 0x20, 0x20, 0x20, 0x20]
                &&& m.vroot_dirent.extension@ == seq![0x20u8, 0x20, 0x20]
                &&& m.vroot_dirent.size == 0
            },
    {
        let mut cache = BlockCache::new(device, capacity);
        let n = cache.num_sectors();
        if n == 0 {
            return Err(FsError::Corrupt);
        }
        let p = cache.read(0, PARTITION_START_OFFSET, 4, Pool::Info);
        let start_sector = read_u32_le(p.as_slice(), 0) as usize;
        if start_sector >= n {
            return Err(FsError::Corrupt);
        }
        cache.set_start_sec(start_sector);
        proof {
            cache.lemma_wf();
        }
        let boot = cache.read(0, 0, 67, Pool::Info);
        let boot_sector = FatBS::from_bytes(boot.as_slice());
        let ext_boot_sec = FatExtBS::from_bytes(boot.as_slice());
        let nsec = cache.num_sectors();
        let fsinfo = FSInfo::new(ext_boot_sec.fat_info_sec());
        let (fat, root_sec) = match volume_layout(&boot_sector, &ext_boot_sec, nsec, Ghost(boot@)) {
            Some(l) => l,
            None => {
                return Err(FsError::Corrupt);
            },
        };
        if fsinfo.sector_num >= fat.fat1_sector {
            return Err(FsError::Corrupt);
        }
        let sectors_per_cluster = boot_sector.sectors_per_cluster as u32;
        let bytes_per_sector = boot_sector.bytes_per_sector as u32;
        if !fsinfo.check_signature(&mut cache) {
            return Err(FsError::Corrupt);
        }
        let mut root_dirent = ShortDirEntry::new(
            &[0x2F, 0x20, 0x20, 0x20, 0x20, 0x20, 0x20, 0x20],
            &[0x20, 0x20, 0x20],
            ATTRIBUTE_DIRECTORY,
        );
        root_dirent.set_first_cluster(2);
        let m = FAT32Manager {
            cache,
            fsinfo,
            sectors_per_cluster,
            bytes_per_sector,
            bytes_per_cluster: sectors_per_cluster * bytes_per_sector,
            root_sector: root_sec,
            total_sectors: boot_sector.total_sectors(),
            fat,
            vroot_dirent: root_dirent,
        };
        proof {
            reveal(data_fits);
        }
        Ok(m)
    }

    /// Mounts the volume on `device`, as `open` does.
    pub fn create(device: D, capacity: usize) -> (r: Result<Self, FsError>)
        requires
            crate::block_dev::sectors_ok(device.blocks()),
            capacity >= 1,
        ensures
            r is Err ==> r == Err::<Self, FsError>(FsError::Corrupt),
            r matches Ok(m) ==> m.wf(),
    {
        Self::open(device, capacity)
    }

    pub fn sectors_per_cluster(&self) -> (r: u32)
        ensures
            r == self.sectors_per_cluster,
    {
        self.sectors_per_cluster
    }

    pub fn bytes_per_sector(&self) -> (r: u32)
        ensures
            r == self.bytes_per_sector,
    {
        self.bytes_per_sector
    }

    pub fn bytes_per_cluster(&self) -> (r: u32)
        ensures
            r == self.bytes_per_cluster,
    {
        self.bytes_per_cluster
    }

    /// The first sector of the data region (cluster 2).
    pub fn first_data_sector(&self) -> (r: u32)
        ensures
            r == self.root_sector,
    {
        self.root_sector
    }

    /// The first sector of `cluster`.
    pub fn first_sector_of_cluster(&self, cluster: u32) -> (r: usize)
        requires
            self.wf(),
            2 <= cluster < self.fat.n_entry,
        ensures
            r == self.cluster_sector(cluster as int),
            r + self.sectors_per_cluster <= self.view().len(),
    {
        proof {
            reveal(data_fits);
            self.cache.lemma_wf();
            let c = cluster as int;
            let s = self.sectors_per_cluster as int;
            let n = self.fat.n_entry as int;
            assert((c - 2) * s + s <= (n - 2) * s) by (nonlinear_arith)
                requires
                    c + 1 <= n,
                    s >= 1,
            ;
            assert(0 <= (c - 2) * s) by (nonlinear_arith)
                requires
                    c >= 2,
                    s >= 1,
            ;
        }
        (cluster as usize - 2) * self.sectors_per_cluster as usize + self.root_sector as usize
    }

    /// The root directory's in-memory entry: a directory at cluster 2.
    pub fn get_root_dirent(&self) -> (r: ShortDirEntry)
        ensures
            r == self.vroot_dirent,
    {
        self.vroot_dirent
    }

    /// The allocation table.
    pub fn get_fat(&self) -> (r: FAT)
        ensures
            r == self.fat,
    {
        self.fat
    }

    /// Free-cluster count recorded in FS-info.
    pub fn free_clusters(&mut self) -> (r: u32)
        requires
            old(self).wf(),
        ensures
            final(self).wf(),
            final(self).view() == old(self).view(),
            final(self).same_but_cache(old(self)),
            r == old(self).free_count(),
    {
        proof {
            self.cache.lemma_wf();
        }
        self.fsinfo.read_free_clusters(&mut self.cache)
    }

    /// Everything but the cache's contents is the same.
    pub open spec fn same_but_cache(&self, o: &Self) -> bool {
        &&& self.cache.same_shape(&o.cache)
        &&& self.fsinfo == o.fsinfo
        &&& self.sectors_per_cluster == o.sectors_per_cluster
        &&& self.bytes_per_sector == o.bytes_per_sector
        &&& self.bytes_per_cluster == o.bytes_per_cluster
        &&& self.root_sector == o.root_sector
        &&& self.total_sectors == o.total_sectors
        &&& self.fat == o.fat
        &&& self.vroot_dirent == o.vroot_dirent
    }

    /// Clusters needed to hold `size` bytes.
    pub fn size_to_clusters(&self, size: u32) -> (r: u32)
        requires
            self.bytes_per_cluster > 0,
        ensures
            r as int == (size as int + self.bytes_per_cluster - 1) / self.bytes_per_cluster as int,
    {
        let q = size / self.bytes_per_cluster;
        proof {
            let s = size as int;
            let c = self.bytes_per_cluster as int;
            assert((s + c - 1) / c == s / c + (if s % c == 0 { 0int } else { 1int }))
                by (nonlinear_arith)
                requires
                    c > 0,
                    s >= 0,
            ;
            assert(s % c != 0 ==> s / c < 0xFFFF_FFFF) by (nonlinear_arith)
                requires
                    c > 0,
                    0 <= s <= 0xFFFF_FFFF,
            ;
        }
        if size % self.bytes_per_cluster == 0 {
            q
        } else {
            q + 1
        }
    }

    /// Index within its chain of the cluster that holds byte `offset`.
    pub fn cluster_of_offset(&self, offset: usize) -> (r: u32)
        requires
            self.bytes_per_cluster > 0,
            offset <= u32::MAX,
        ensures
            r == offset as u32 / self.bytes_per_cluster,
    {
        offset as u32 / self.bytes_per_cluster
    }

    /// Writes every dirty cache line to the device.
    pub fn cache_write_back(&mut self)
        requires
            old(self).wf(),
        ensures
            final(self).wf(),
            final(self).view() == old(self).view(),
            final(self).same_but_cache(old(self)),
            final(self).cache.clean(),
            final(self).cache.dev().blocks() == old(self).cache.absolute(),
    {
        self.cache.write_back();
    }
}


impl<D: BlockDevice> FAT32Manager<D> {
    /// Both tables agree between two volumes on every entry of the table.
    pub open spec fn same_tables(&self, v1: Seq<Seq<u8>>, v2: Seq<Seq<u8>>) -> bool {
        self.fat.same_entries(v1, v2)
    }

    /// A write to a sector that lies before FAT1 or after FAT2 leaves both
    /// tables as they are.
    pub proof fn lemma_outside_tables(&self, v1: Seq<Seq<u8>>, v2: Seq<Seq<u8>>, s: int)
        requires
            self.wf(),
            v1.len() == v2.len(),
            self.fat.fits(v1.len() as int),
            s < self.fat.fat1_sector || s >= self.root_sector,
            forall|t: int| 0 <= t < v1.len() && t != s ==> v1[t] == v2[t],
        ensures
            self.same_tables(v1, v2),
    {
        assert forall|d: int| 0 <= d < self.fat.n_entry implies #[trigger] self.fat.fat1(v1, d) == self.fat.fat1(v2, d)
            && self.fat.fat2(v1, d) == self.fat.fat2(v2, d) by {
            reveal(crate::fat::entry_at);
            assert(d / 128 < self.fat.n_sectors) by (nonlinear_arith)
                requires
                    0 <= d < self.fat.n_entry,
                    self.fat.n_entry <= 128 * self.fat.n_sectors,
            ;
        }
            assert(self.fat.same_entries(v1, v2));
    }

    /// Zeroes every sector of `cluster` through the data pool.
    pub fn clear_cluster(&mut self, cluster_id: u32)
        requires
            old(self).wf(),
            2 <= cluster_id < old(self).fat.n_entry,
        ensures
            final(self).wf(),
            final(self).same_but_cache(old(self)),
            final(self).view().len() == old(self).view().len(),
            forall|s: int|
                0 <= s < old(self).view().len() ==> #[trigger] final(self).view()[s] == if old(self).cluster_sector(cluster_id as int) <= s < old(self).cluster_sector(
                    cluster_id as int,
                ) + old(self).sectors_per_cluster {
                    Seq::new(512, |k: int| 0u8)
                } else {
                    old(self).view()[s]
                },
    {
        let start_sec = self.first_sector_of_cluster(cluster_id);
        let zeros: Vec<u8> = vec![0u8; BLOCK_SZ];
        assert(zeros@ =~= Seq::new(512, |k: int| 0u8));
        let ghost v0 = self.view();
        let mut i: u32 = 0;
        while i < self.sectors_per_cluster
            invariant
                self.wf(),
                self.same_but_cache(old(self)),
                v0 == old(self).view(),
                self.view().len() == v0.len(),
                start_sec == old(self).cluster_sector(cluster_id as int),
                start_sec + self.sectors_per_cluster <= v0.len(),
                zeros@ == Seq::new(512, |k: int| 0u8),
                i <= self.sectors_per_cluster,
                forall|s: int|
                    0 <= s < v0.len() ==> #[trigger] self.view()[s] == if start_sec <= s < start_sec
                        + i {
                        Seq::new(512, |k: int| 0u8)
                    } else {
                        v0[s]
                    },
            decreases self.sectors_per_cluster - i,
        {
            proof {
                self.cache.lemma_wf();
            }
            let ghost before = self.view();
            self.cache.write(start_sec + i as usize, 0, zeros.as_slice(), Pool::Data);
            proof {
                assert(splice(before[start_sec + i], 0, zeros@) =~= zeros@);
            }
            i += 1;
        }
    }
}


/// Clusters in strictly increasing order, each in `(lo, hi)`.
pub open spec fn increasing_in(cs: Seq<u32>, lo: int, hi: int) -> bool {
    &&& forall|j: int| 0 <= j < cs.len() ==> lo < #[trigger] cs[j] < hi
    &&& forall|i: int, j: int| 0 <= i < j < cs.len() ==> cs[i] < cs[j]
}

impl<D: BlockDevice> FAT32Manager<D> {
    /// The first `num` clusters after `floor` whose FAT1 entry is free, or
    /// `None` where there are fewer.
    fn find_free(&mut self, floor: u32, num: u32) -> (r: Option<Vec<u32>>)
        requires
            old(self).wf(),
        ensures
            final(self).wf(),
            final(self).same_but_cache(old(self)),
            final(self).view() == old(self).view(),
            match r {
                Some(cs) => {
                    &&& cs@.len() == num
                    &&& old(self).fat.count_free(old(self).view(), floor + 1, old(self).fat.n_entry as int) >= num
                    &&& increasing_in(cs@, floor as int, old(self).fat.n_entry as int)
                    &&& forall|j: int|
                        0 <= j < cs@.len() ==> old(self).fat.fat1(old(self).view(), #[trigger] cs@[j] as int)
                            == FREE_CLUSTER
                },
                None => old(self).fat.count_free(
                    old(self).view(),
                    floor + 1,
                    old(self).fat.n_entry as int,
                ) < num,
            },
    {
        let ghost v = self.view();
        let ghost fat = self.fat;
        let mut cs: Vec<u32> = Vec::new();
        let mut prev = floor;
        assert(fat.count_free(v, floor + 1, floor + 1) == 0) by {
            reveal(FAT::count_free);
        }
        while cs.len() < num as usize
            invariant
                self.wf(),
                self.same_but_cache(old(self)),
                self.view() == v,
                v == old(self).view(),
                fat == self.fat,
                cs@.len() <= num,
                increasing_in(cs@, floor as int, fat.n_entry as int),
                forall|j: int| 0 <= j < cs@.len() ==> fat.fat1(v, #[trigger] cs@[j] as int) == FREE_CLUSTER,
                cs@.len() == 0 ==> prev == floor,
                cs@.len() > 0 ==> prev == cs@[cs@.len() - 1],
                floor <= prev,
                fat.count_free(v, floor + 1, prev + 1) == cs@.len(),
            decreases num - cs@.len(),
        {
            proof {
                self.cache.lemma_wf();
            }
            let c = self.fat.next_free_cluster(prev, &mut self.cache);
            if c == 0 {
                proof {
                    if prev < fat.n_entry {
                        fat.lemma_count_free_skip(v, floor + 1, prev + 1, fat.n_entry as int);
                    } else {
                        assert(fat.count_free(v, floor + 1, fat.n_entry as int) <= fat.count_free(v, floor + 1, prev + 1)) by {
                            self.lemma_count_mono(v, floor + 1, fat.n_entry as int, prev + 1);
                        }
                    }
                }
                return None;
            }
            proof {
                fat.lemma_count_free_skip(v, floor + 1, prev + 1, c as int);
                fat.lemma_count_free_step(v, floor + 1, c as int);
            }
            cs.push(c);
            prev = c;
        }
        proof {
            if cs@.len() > 0 {
                self.lemma_count_mono(v, floor + 1, prev + 1, fat.n_entry as int);
            }
        }
        Some(cs)
    }

    /// A cluster of the table lies in the data region, inside the volume.
    pub proof fn lemma_cluster_in_volume(&self, c: u32)
        requires
            self.wf(),
            2 <= c < self.fat.n_entry,
        ensures
            self.root_sector <= self.cluster_sector(c as int),
            self.cluster_sector(c as int) + self.sectors_per_cluster <= self.view().len(),
    {
        reveal(data_fits);
        assert(self.root_sector <= self.cluster_sector(c as int)) by (nonlinear_arith)
            requires
                c >= 2,
                self.cluster_sector(c as int) == self.root_sector + (c - 2) * self.sectors_per_cluster,
        ;
        assert(self.cluster_sector(c as int) + self.sectors_per_cluster <= self.view().len()) by (nonlinear_arith)
            requires
                c + 1 <= self.fat.n_entry,
                self.cluster_sector(c as int) == self.root_sector + (c - 2) * self.sectors_per_cluster,
                self.root_sector + (self.fat.n_entry - 2) * self.sectors_per_cluster <= self.view().len(),
                self.sectors_per_cluster >= 1,
        ;
    }

    proof fn lemma_count_lo_mono(&self, v: Seq<Seq<u8>>, lo1: int, lo2: int, hi: int)
        requires
            lo1 <= lo2,
        ensures
            self.fat.count_free(v, lo1, hi) >= self.fat.count_free(v, lo2, hi),
        decreases hi - lo2,
    {
        reveal(FAT::count_free);
        if hi > lo2 {
            self.lemma_count_lo_mono(v, lo1, lo2, hi - 1);
        }
    }

    proof fn lemma_count_mono(&self, v: Seq<Seq<u8>>, lo: int, a: int, b: int)
        requires
            a <= b,
        ensures
            self.fat.count_free(v, lo, a) <= self.fat.count_free(v, lo, b),
        decreases b - a,
    {
        reveal(FAT::count_free);
        if a < b {
            self.lemma_count_mono(v, lo, a, b - 1);
        }
    }

    /// Zeroes each cluster of `cs`; the tables and FS-info stay as they are.
    fn zero_all(&mut self, cs: &Vec<u32>)
        requires
            old(self).wf(),
            forall|j: int| 0 <= j < cs@.len() ==> 2 <= #[trigger] cs@[j] < old(self).fat.n_entry,
        ensures
            final(self).wf(),
            final(self).same_but_cache(old(self)),
            final(self).view().len() == old(self).view().len(),
            final(self).same_tables(old(self).view(), final(self).view()),
            final(self).view()[old(self).fsinfo.sector_num as int] == old(self).view()[old(self).fsinfo.sector_num as int],
            forall|j: int| 0 <= j < cs@.len() ==> final(self).zeroed_in(final(self).view(), #[trigger] cs@[j]),
    {
        let ghost v0 = self.view();
        let mut k: usize = 0;
        while k < cs.len()
            invariant
                self.wf(),
                self.same_but_cache(old(self)),
                v0 == old(self).view(),
                self.view().len() == v0.len(),
                forall|j: int| 0 <= j < cs@.len() ==> 2 <= #[trigger] cs@[j] < self.fat.n_entry,
                self.same_tables(v0, self.view()),
                self.view()[self.fsinfo.sector_num as int] == v0[self.fsinfo.sector_num as int],
                k <= cs@.len(),
                forall|j: int| 0 <= j < k ==> self.zeroed_in(self.view(), #[trigger] cs@[j]),
            decreases cs@.len() - k,
        {
            let ghost before = self.view();
            let ghost first = self.cluster_sector(cs@[k as int] as int);
            self.clear_cluster(cs[k]);
            proof {
                let after = self.view();
                assert forall|j: int| 0 <= j < k + 1 implies self.zeroed_in(after, #[trigger] cs@[j]) by {
                    let c = cs@[j];
                    self.lemma_cluster_in_volume(c);
                    assert forall|s: int| self.cluster_sector(c as int) <= s < self.cluster_sector(c as int) + self.sectors_per_cluster
                        implies #[trigger] after[s] == Seq::new(512, |q: int| 0u8) by {
                        if j < k {
                            assert(before[s] == Seq::new(512, |q: int| 0u8));
                        }
                    }
                }
                assert forall|d: int| 0 <= d < self.fat.n_entry implies #[trigger] self.fat.fat1(before, d) == self.fat.fat1(after, d)
                    && self.fat.fat2(before, d) == self.fat.fat2(after, d) by {
                    reveal(crate::fat::entry_at);
                    assert(d / 128 < self.fat.n_sectors) by (nonlinear_arith)
                        requires
                            0 <= d < self.fat.n_entry,
                            self.fat.n_entry <= 128 * self.fat.n_sectors,
                    ;
                    assert(first >= self.root_sector) by (nonlinear_arith)
                        requires
                            first == self.root_sector + (cs@[k as int] - 2) * self.sectors_per_cluster,
                            cs@[k as int] >= 2,
                    ;
                }
                assert(first >= self.root_sector) by (nonlinear_arith)
                    requires
                        first == self.root_sector + (cs@[k as int] - 2) * self.sectors_per_cluster,
                        cs@[k as int] >= 2,
                ;
            }
            k += 1;
        }
    }
}


impl<D: BlockDevice> FAT32Manager<D> {
    /// Links each cluster of `cs` to the next in both tables and ends the
    /// chain at the last one. No other entry and no sector outside the
    /// tables changes.
    #[verifier::rlimit(60)]
    #[verifier::spinoff_prover]
    fn link_all(&mut self, cs: &Vec<u32>)
        requires
            old(self).wf(),
            cs@.len() > 0,
            increasing_in(cs@, 1, old(self).fat.n_entry as int),
        ensures
            final(self).wf(),
            final(self).same_but_cache(old(self)),
            final(self).view().len() == old(self).view().len(),
            forall|j: int|
                0 <= j < cs@.len() - 1 ==> final(self).fat.fat1(final(self).view(), #[trigger] cs@[j] as int)
                    == cs@[j + 1] && final(self).fat.fat2(final(self).view(), cs@[j] as int) == cs@[j + 1],
            final(self).fat.fat1(final(self).view(), cs@[cs@.len() - 1] as int) == END_CLUSTER,
            final(self).fat.fat2(final(self).view(), cs@[cs@.len() - 1] as int) == END_CLUSTER,
            forall|d: int|
                0 <= d < old(self).fat.n_entry && !cs@.contains(d as u32) ==> #[trigger] final(self).fat.fat1(
                    final(self).view(),
                    d,
                ) == old(self).fat.fat1(old(self).view(), d) && final(self).fat.fat2(final(self).view(), d)
                    == old(self).fat.fat2(old(self).view(), d),
            forall|s: int|
                0 <= s < old(self).view().len() && !old(self).fat.in_tables(s) ==> #[trigger] final(self).view()[s] == old(self).view()[s],
    {
        let ghost v0 = self.view();
        let ghost fat = self.fat;
        let n = cs.len();
        let mut k: usize = 0;
        while k < n
            invariant
                self.wf(),
                self.same_but_cache(old(self)),
                v0 == old(self).view(),
                fat == self.fat,
                self.view().len() == v0.len(),
                n == cs@.len(),
                n > 0,
                increasing_in(cs@, 1, fat.n_entry as int),
                k <= n,
                forall|j: int|
                    0 <= j < k ==> fat.fat1(self.view(), #[trigger] cs@[j] as int) == (if j < n - 1 { cs@[j + 1] } else { END_CLUSTER })
                        && fat.fat2(self.view(), cs@[j] as int) == (if j < n - 1 { cs@[j + 1] } else { END_CLUSTER }),
                forall|d: int|
                    0 <= d < fat.n_entry && !cs@.take(k as int).contains(d as u32) ==> #[trigger] fat.fat1(self.view(), d)
                        == fat.fat1(v0, d) && fat.fat2(self.view(), d) == fat.fat2(v0, d),
                forall|s: int|
                    0 <= s < v0.len() && !fat.in_tables(s) ==> #[trigger] self.view()[s] == v0[s],
            decreases n - k,
        {
            proof {
                self.cache.lemma_wf();
            }
            let ghost before = self.view();
            let target = if k + 1 < n {
                cs[k + 1]
            } else {
                END_CLUSTER
            };
            self.fat.set_next_cluster(cs[k], target, &mut self.cache);
            proof {
                lemma_link_step(fat, v0, before, self.view(), cs@, k as int, target);
            }
            k += 1;
        }
        proof {
            assert(cs@.take(n as int) =~= cs@);
        }
    }

    /// Allocates a chain of `num` free clusters, searched from the first-free
    /// hint and, where too few lie after it, from the start of the table;
    /// zeroes them, links them in both tables with an end mark on the last,
    /// lowers the free count by `num`, moves the hint to the last one and
    /// flushes the cache. Returns the first cluster; `None`, with nothing
    /// changed, exactly when `can_alloc(num)` fails: `num` is zero, exceeds
    /// the free count, or exceeds the free entries of the table.
    #[verifier::rlimit(100)]
    #[verifier::spinoff_prover]
    pub fn alloc_cluster(&mut self, num: u32) -> (r: Option<u32>)
        requires
            old(self).wf(),
        ensures
            final(self).wf(),
            final(self).same_but_cache(old(self)),
            final(self).view().len() == old(self).view().len(),
            r is Some <==> old(self).can_alloc(num),
            r is None ==> final(self).view() == old(self).view(),
            old(self).fat.mirrored(old(self).view()) ==> final(self).fat.mirrored(final(self).view()),
            r matches Some(first) ==> final(self).allocated(old(self), first, num),
    {
        proof {
            self.cache.lemma_wf();
        }
        if num == 0 {
            return None;
        }
        let free_clusters = self.free_clusters();
        if num > free_clusters {
            return None;
        }
        let hint = self.fsinfo.first_free_cluster(&mut self.cache);
        let floor = if hint < 1 {
            1
        } else {
            hint
        };
        let ghost v00 = self.view();
        let cs = match self.find_free(floor, num) {
            Some(cs) => {
                proof {
                    self.lemma_count_lo_mono(v00, 2, floor + 1, self.fat.n_entry as int);
                }
                cs
            },
            None => match self.find_free(1, num) {
                Some(cs) => cs,
                None => {
                    return None;
                },
            },
        };
        assert(increasing_in(cs@, 1, self.fat.n_entry as int));
        let ghost v0 = self.view();
        let ghost fat = self.fat;
        self.zero_all(&cs);
        let ghost v1 = self.view();
        let ghost before_link = *self;
        self.link_all(&cs);
        let ghost v2 = self.view();
        proof {
            assert(self.fat == fat);
            assert forall|d: int| 0 <= d < fat.n_entry && !cs@.contains(d as u32) implies #[trigger] fat.fat1(v2, d)
                == fat.fat1(v1, d) && fat.fat2(v2, d) == fat.fat2(v1, d) by {
                assert(self.fat.fat1(self.view(), d) == before_link.fat.fat1(before_link.view(), d));
            }
        }
        proof {
            self.cache.lemma_wf();
        }
        let last = cs[cs.len() - 1];
        self.update_fsinfo(free_clusters - num, last);
        let ghost v3 = self.view();
        self.cache_write_back();
        proof {
            lemma_alloc_chain(fat, v0, v1, v2, v3, cs@, 1);
            let last_c = cs@[cs@.len() - 1];
            assert(fat.fat1(v3, last_c as int) == END_CLUSTER) by {
                assert(fat.fat1(v2, last_c as int) == fat.fat1(v3, last_c as int));
            }
            assert(fat.fat2(v3, last_c as int) == END_CLUSTER) by {
                assert(fat.fat2(v2, last_c as int) == fat.fat2(v3, last_c as int));
            }
            assert forall|j: int| 0 <= j < cs@.len() implies self.zeroed_in(v3, #[trigger] cs@[j]) by {
                let c = cs@[j];
                assert(self.zeroed_in(v1, c));
                assert forall|s: int| self.cluster_sector(c as int) <= s < self.cluster_sector(c as int) + self.sectors_per_cluster
                    implies #[trigger] v3[s] == Seq::new(512, |k: int| 0u8) by {
                    self.lemma_cluster_in_volume(c);
                    assert(!fat.in_tables(s));
                    assert(v1[s] == Seq::new(512, |k: int| 0u8));
                    assert(v2[s] == v1[s]);
                }
            }
            assert(self.view() == v3);
            assert(self.chain(cs@[0]) == cs@);
            assert(self.free_count() == old(self).free_count() - num);
            let ch = self.chain(cs@[0]);
            assert(ch.len() == num);
            assert(increasing_in(ch, 1, old(self).fat.n_entry as int));
            assert(forall|j: int| 0 <= j < ch.len() ==> old(self).fat.fat1(old(self).view(), #[trigger] ch[j] as int) == FREE_CLUSTER);
            assert(self.fsinfo.hint(self.view()) == ch[ch.len() - 1]);
            assert(v0 == old(self).view());
            assert(fat == old(self).fat);
            assert(forall|j: int| 0 <= j < ch.len() ==> self.fat.fat1(self.view(), #[trigger] ch[j] as int) == self.fat.fat2(self.view(), ch[j] as int));
            assert(forall|d: int| 0 <= d < old(self).fat.n_entry && !ch.contains(d as u32) ==> #[trigger] self.fat.fat1(self.view(), d)
                == old(self).fat.fat1(old(self).view(), d) && self.fat.fat2(self.view(), d) == old(self).fat.fat2(old(self).view(), d));
            assert(self.cache.clean());
            assert(self.allocated(old(self), cs@[0], num));
            if fat.mirrored(v0) {
                assert forall|d: int| 0 <= d < fat.n_entry implies #[trigger] fat.fat1(v3, d) == fat.fat2(v3, d) by {
                    if cs@.contains(d as u32) {
                        let j = choose|j: int| 0 <= j < cs@.len() && cs@[j] == d as u32;
                        assert(fat.fat1(v3, cs@[j] as int) == fat.fat2(v3, cs@[j] as int));
                    } else {
                        assert(fat.fat1(v0, d) == fat.fat2(v0, d));
                    }
                }
            }
        }
        Some(cs[0])
    }

    /// Records a new free count and first-free hint; the tables stay as
    /// they are.
    fn update_fsinfo(&mut self, free: u32, hint: u32)
        requires
            old(self).wf(),
        ensures
            final(self).wf(),
            final(self).same_but_cache(old(self)),
            final(self).view().len() == old(self).view().len(),
            final(self).same_tables(old(self).view(), final(self).view()),
            final(self).free_count() == free,
            final(self).fsinfo.hint(final(self).view()) == hint,
            forall|s: int|
                0 <= s < old(self).view().len() && s != old(self).fsinfo.sector_num ==> #[trigger] final(self).view()[s]
                    == old(self).view()[s],
    {
        proof {
            self.cache.lemma_wf();
        }
        let ghost v2 = self.view();
        self.fsinfo.write_free_clusters(free, &mut self.cache);
        let ghost vm = self.view();
        proof {
            self.cache.lemma_wf();
        }
        self.fsinfo.write_first_free_cluster(hint, &mut self.cache);
        proof {
            let v3 = self.view();
            let fs = self.fsinfo.sector_num as int;
            self.lemma_outside_tables(v2, vm, fs);
            self.lemma_outside_tables(vm, v3, fs);
            crate::utils::lemma_u32_at_splice(vm[fs], crate::layout::FSI_NEXT_FREE as int, hint);
            crate::utils::lemma_u32_at_splice(v2[fs], crate::layout::FSI_FREE_COUNT as int, free);
            crate::fat::lemma_u32_at_splice_other(vm[fs], crate::layout::FSI_NEXT_FREE as int, hint, crate::layout::FSI_FREE_COUNT as int);
        }
    }

    /// What a successful allocation of `num` clusters starting at `first`
    /// leaves, compared with the state `prev` before it: the chain from
    /// `first` has `num` clusters, all free before and above the hint; both
    /// tables agree on them; every other entry is as it was; the free count
    /// dropped by `num`; the hint is the last cluster; the cache is clean.
    pub open spec fn allocated(&self, prev: &Self, first: u32, num: u32) -> bool {
        let ch = self.chain(first);
        &&& ch.len() == num
        &&& ch[0] == first
        &&& increasing_in(ch, 1, prev.fat.n_entry as int)
        &&& forall|j: int| 0 <= j < ch.len() - 1 ==> self.fat.fat1(self.view(), #[trigger] ch[j] as int) == ch[j + 1]
        &&& self.fat.fat1(self.view(), ch[ch.len() - 1] as int) == END_CLUSTER
        &&& self.fat.fat2(self.view(), ch[ch.len() - 1] as int) == END_CLUSTER
        &&& forall|j: int| 0 <= j < ch.len() ==> self.zeroed_in(self.view(), #[trigger] ch[j])
        &&& forall|j: int|
            0 <= j < ch.len() ==> prev.fat.fat1(prev.view(), #[trigger] ch[j] as int) == FREE_CLUSTER
        &&& forall|j: int|
            0 <= j < ch.len() ==> self.fat.fat1(self.view(), #[trigger] ch[j] as int) == self.fat.fat2(
                self.view(),
                ch[j] as int,
            )
        &&& forall|d: int|
            0 <= d < prev.fat.n_entry && !ch.contains(d as u32) ==> #[trigger] self.fat.fat1(self.view(), d)
                == prev.fat.fat1(prev.view(), d) && self.fat.fat2(self.view(), d) == prev.fat.fat2(
                prev.view(),
                d,
            )
        &&& self.free_count() == prev.free_count() - num
        &&& self.fsinfo.hint(self.view()) == ch[ch.len() - 1]
        &&& self.cache.clean()
    }
}

/// Strictly increasing values in `(lo, hi)` number at most `hi - lo - 1`.
proof fn lemma_increasing_len(cs: Seq<u32>, lo: int, hi: int)
    requires
        increasing_in(cs, lo, hi),
    ensures
        cs.len() <= if hi - lo - 1 < 0 { 0 } else { hi - lo - 1 },
    decreases cs.len(),
{
    if cs.len() > 0 {
        let t = cs.drop_last();
        assert(increasing_in(t, lo, cs[cs.len() - 1] as int));
        lemma_increasing_len(t, lo, cs[cs.len() - 1] as int);
    }
}


/// What the phases of an allocation add up to: the clusters, linked in
/// `v2` and carried unchanged to `v3`, form the chain from the first one;
/// both tables agree on them; every other entry is as in `v0`.
#[verifier::rlimit(50)]
#[verifier::spinoff_prover]
proof fn lemma_alloc_chain(
    fat: FAT,
    v0: Seq<Seq<u8>>,
    v1: Seq<Seq<u8>>,
    v2: Seq<Seq<u8>>,
    v3: Seq<Seq<u8>>,
    cs: Seq<u32>,
    floor: int,
)
    requires
        fat.n_entry <= BAD_CLUSTER,
        floor >= 1,
        cs.len() > 0,
        increasing_in(cs, floor, fat.n_entry as int),
        fat.same_entries(v0, v1),
        fat.same_entries(v2, v3),
        forall|j: int|
            0 <= j < cs.len() - 1 ==> fat.fat1(v2, #[trigger] cs[j] as int) == cs[j + 1] && fat.fat2(
                v2,
                cs[j] as int,
            ) == cs[j + 1],
        fat.fat1(v2, cs[cs.len() - 1] as int) == END_CLUSTER,
        fat.fat2(v2, cs[cs.len() - 1] as int) == END_CLUSTER,
        forall|d: int|
            0 <= d < fat.n_entry && !cs.contains(d as u32) ==> #[trigger] fat.fat1(v2, d) == fat.fat1(
                v1,
                d,
            ) && fat.fat2(v2, d) == fat.fat2(v1, d),
    ensures
        fat.chain_of(v3, cs[0]) == cs,
        forall|j: int| 0 <= j < cs.len() - 1 ==> fat.fat1(v3, #[trigger] cs[j] as int) == cs[j + 1],
        forall|j: int|
            0 <= j < cs.len() ==> fat.fat1(v3, #[trigger] cs[j] as int) == fat.fat2(v3, cs[j] as int),
        forall|d: int|
            0 <= d < fat.n_entry && !cs.contains(d as u32) ==> #[trigger] fat.fat1(v3, d) == fat.fat1(
                v0,
                d,
            ) && fat.fat2(v3, d) == fat.fat2(v0, d),
{
    assert forall|j: int| 0 <= j < cs.len() implies 2 <= #[trigger] cs[j] < fat.n_entry by {}
    assert forall|j: int| 0 <= j < cs.len() - 1 implies fat.fat1(v3, #[trigger] cs[j] as int) == cs[j + 1] by {
        assert(fat.fat1(v2, cs[j] as int) == fat.fat1(v3, cs[j] as int));
    }
    let last = cs[cs.len() - 1];
    assert(fat.fat1(v2, last as int) == fat.fat1(v3, last as int));
    lemma_increasing_len(cs, floor, fat.n_entry as int);
    fat.lemma_chain_links(v3, cs, 0, fat.n_entry as nat);
    assert(cs.subrange(0, cs.len() as int) =~= cs);
    assert forall|j: int| 0 <= j < cs.len() implies fat.fat1(v3, #[trigger] cs[j] as int) == fat.fat2(v3, cs[j] as int) by {
        assert(fat.fat1(v2, cs[j] as int) == fat.fat1(v3, cs[j] as int));
        assert(fat.fat2(v2, cs[j] as int) == fat.fat2(v3, cs[j] as int));
    }
    assert forall|d: int| 0 <= d < fat.n_entry && !cs.contains(d as u32) implies #[trigger] fat.fat1(v3, d)
        == fat.fat1(v0, d) && fat.fat2(v3, d) == fat.fat2(v0, d) by {
        assert(fat.fat1(v2, d) == fat.fat1(v3, d));
        assert(fat.fat1(v0, d) == fat.fat1(v1, d));
    }
}


/// One step of linking: entry `cs[k]` set to `target` in both tables.
#[verifier::spinoff_prover]
proof fn lemma_link_step(
    fat: FAT,
    v0: Seq<Seq<u8>>,
    before: Seq<Seq<u8>>,
    after: Seq<Seq<u8>>,
    cs: Seq<u32>,
    k: int,
    target: u32,
)
    requires
        crate::block_dev::sectors_ok(before),
        fat.fits(before.len() as int),
        fat.apart(),
        0 <= k < cs.len(),
        increasing_in(cs, 1, fat.n_entry as int),
        target == if k + 1 < cs.len() { cs[k + 1] } else { END_CLUSTER },
        after == fat.set_next(before, cs[k] as int, target),
        v0.len() == before.len(),
        forall|j: int|
            0 <= j < k ==> fat.fat1(before, #[trigger] cs[j] as int) == (if j < cs.len() - 1 { cs[j + 1] } else { END_CLUSTER })
                && fat.fat2(before, cs[j] as int) == (if j < cs.len() - 1 { cs[j + 1] } else { END_CLUSTER }),
        forall|d: int|
            0 <= d < fat.n_entry && !cs.take(k).contains(d as u32) ==> #[trigger] fat.fat1(before, d)
                == fat.fat1(v0, d) && fat.fat2(before, d) == fat.fat2(v0, d),
        forall|s: int| 0 <= s < v0.len() && !fat.in_tables(s) ==> #[trigger] before[s] == v0[s],
    ensures
        after.len() == before.len(),
        forall|j: int|
            0 <= j < k + 1 ==> fat.fat1(after, #[trigger] cs[j] as int) == (if j < cs.len() - 1 { cs[j + 1] } else { END_CLUSTER })
                && fat.fat2(after, cs[j] as int) == (if j < cs.len() - 1 { cs[j + 1] } else { END_CLUSTER }),
        forall|d: int|
            0 <= d < fat.n_entry && !cs.take(k + 1).contains(d as u32) ==> #[trigger] fat.fat1(after, d)
                == fat.fat1(v0, d) && fat.fat2(after, d) == fat.fat2(v0, d),
        forall|s: int| 0 <= s < v0.len() && !fat.in_tables(s) ==> #[trigger] after[s] == v0[s],
{
    let c = cs[k];
    fat.lemma_set_next_frame(before, c as int, target);
    assert forall|j: int| 0 <= j < k + 1 implies fat.fat1(after, #[trigger] cs[j] as int) == (if j < cs.len() - 1 { cs[j + 1] } else { END_CLUSTER })
        && fat.fat2(after, cs[j] as int) == (if j < cs.len() - 1 { cs[j + 1] } else { END_CLUSTER }) by {
        if j < k {
            assert(cs[j] < cs[k]);
        }
    }
    assert forall|d: int| 0 <= d < fat.n_entry && !cs.take(k + 1).contains(d as u32) implies #[trigger] fat.fat1(after, d)
        == fat.fat1(v0, d) && fat.fat2(after, d) == fat.fat2(v0, d) by {
        assert(cs.take(k + 1)[k] == c);
        if cs.take(k).contains(d as u32) {
            let q = choose|q: int| 0 <= q < k && cs.take(k)[q] == d as u32;
            assert(cs.take(k + 1)[q] == d as u32);
        }
        assert(d != c);
    }
}


impl<D: BlockDevice> FAT32Manager<D> {
    /// Frees the clusters of `clusters` in both tables, adds their number to
    /// the free count (modulo 2^32), lowers the first-free hint to one below
    /// the smallest freed cluster where that is above 2 and below the hint,
    /// and flushes the cache.
    #[verifier::spinoff_prover]
    #[verifier::rlimit(60)]
    pub fn dealloc_cluster(&mut self, clusters: Vec<u32>)
        requires
            old(self).wf(),
            forall|j: int| 0 <= j < clusters@.len() ==> 2 <= #[trigger] clusters@[j] < old(self).fat.n_entry,
        ensures
            final(self).wf(),
            final(self).same_but_cache(old(self)),
            final(self).view().len() == old(self).view().len(),
            forall|j: int|
                0 <= j < clusters@.len() ==> final(self).fat.fat1(final(self).view(), #[trigger] clusters@[j] as int)
                    == FREE_CLUSTER && final(self).fat.fat2(final(self).view(), clusters@[j] as int)
                    == FREE_CLUSTER,
            forall|d: int|
                0 <= d < old(self).fat.n_entry && !clusters@.contains(d as u32) ==> #[trigger] final(self).fat.fat1(
                    final(self).view(),
                    d,
                ) == old(self).fat.fat1(old(self).view(), d) && final(self).fat.fat2(final(self).view(), d)
                    == old(self).fat.fat2(old(self).view(), d),
            old(self).fat.mirrored(old(self).view()) ==> final(self).fat.mirrored(final(self).view()),
            clusters@.len() == 0 ==> final(self).view() == old(self).view(),
            clusters@.len() > 0 ==> final(self).free_count() as int == (old(self).free_count() as int
                + clusters@.len()) % 0x1_0000_0000,
            clusters@.len() > 0 ==> final(self).fsinfo.hint(final(self).view()) == if 2 < min_of(clusters@)
                < old(self).fsinfo.hint(old(self).view()) {
                (min_of(clusters@) - 1) as u32
            } else {
                old(self).fsinfo.hint(old(self).view())
            },
            final(self).cache.clean(),
    {
        proof {
            self.cache.lemma_wf();
        }
        let num = clusters.len();
        let free_clusters = self.free_clusters();
        let hint = self.fsinfo.first_free_cluster(&mut self.cache);
        if num == 0 {
            self.cache_write_back();
            return;
        }
        let ghost v0 = self.view();
        let ghost fat = self.fat;
        let mut least: u32 = u32::MAX;
        let mut k: usize = 0;
        while k < num
            invariant
                self.wf(),
                self.same_but_cache(old(self)),
                v0 == old(self).view(),
                fat == self.fat,
                self.view().len() == v0.len(),
                num == clusters@.len(),
                k <= num,
                forall|j: int| 0 <= j < clusters@.len() ==> 2 <= #[trigger] clusters@[j] < fat.n_entry,
                forall|j: int|
                    0 <= j < k ==> fat.fat1(self.view(), #[trigger] clusters@[j] as int) == FREE_CLUSTER
                        && fat.fat2(self.view(), clusters@[j] as int) == FREE_CLUSTER,
                forall|d: int|
                    0 <= d < fat.n_entry && !clusters@.take(k as int).contains(d as u32) ==> #[trigger] fat.fat1(self.view(), d)
                        == fat.fat1(v0, d) && fat.fat2(self.view(), d) == fat.fat2(v0, d),
                forall|s: int| 0 <= s < v0.len() && !fat.in_tables(s) ==> #[trigger] self.view()[s] == v0[s],
                least == if k == 0 { u32::MAX } else { min_of(clusters@.take(k as int)) },
            decreases num - k,
        {
            proof {
                self.cache.lemma_wf();
            }
            let ghost before = self.view();
            self.fat.set_next_cluster(clusters[k], FREE_CLUSTER, &mut self.cache);
            proof {
                lemma_free_step(fat, v0, before, self.view(), clusters@, k as int);
                lemma_min_of_push(clusters@, k as int);
            }
            if clusters[k] < least {
                least = clusters[k];
            }
            k += 1;
        }
        proof {
            assert(clusters@.take(num as int) =~= clusters@);
        }
        {
            let reduced: u64 = (num as u64) % 0x1_0000_0000;
            let total: u64 = (free_clusters as u64 + reduced) % 0x1_0000_0000;
            proof {
                let f = free_clusters as int;
                let n = num as int;
                assert((f + n % 0x1_0000_0000) % 0x1_0000_0000 == (f + n) % 0x1_0000_0000) by (nonlinear_arith)
                    requires
                        n >= 0,
                        f >= 0,
                ;
            }
            let new_hint = if least > 2 && least < hint {
                least - 1
            } else {
                hint
            };
            let ghost v2 = self.view();
            self.update_fsinfo(total as u32, new_hint);
            proof {
                let v3 = self.view();
                assert forall|j: int| 0 <= j < clusters@.len() implies fat.fat1(v3, #[trigger] clusters@[j] as int)
                    == FREE_CLUSTER && fat.fat2(v3, clusters@[j] as int) == FREE_CLUSTER by {
                    assert(fat.fat1(v2, clusters@[j] as int) == fat.fat1(v3, clusters@[j] as int));
                }
                assert forall|d: int| 0 <= d < fat.n_entry && !clusters@.contains(d as u32) implies #[trigger] fat.fat1(v3, d)
                    == fat.fat1(v0, d) && fat.fat2(v3, d) == fat.fat2(v0, d) by {
                    assert(fat.fat1(v2, d) == fat.fat1(v3, d));
                }
            }
        }
        self.cache_write_back();
        proof {
            let v3 = self.view();
            if fat.mirrored(v0) {
                assert forall|d: int| 0 <= d < fat.n_entry implies #[trigger] fat.fat1(v3, d) == fat.fat2(v3, d) by {
                    if clusters@.contains(d as u32) {
                        let j = choose|j: int| 0 <= j < clusters@.len() && clusters@[j] == d as u32;
                        assert(fat.fat1(v3, clusters@[j] as int) == FREE_CLUSTER);
                    } else {
                        assert(fat.fat1(v0, d) == fat.fat2(v0, d));
                    }
                }
            }
        }
    }
}

/// The smallest value of a non-empty sequence.
pub open spec fn min_of(s: Seq<u32>) -> u32
    decreases s.len(),
{
    if s.len() <= 1 {
        if s.len() == 1 { s[0] } else { u32::MAX }
    } else {
        let m = min_of(s.drop_last());
        if s.last() < m { s.last() } else { m }
    }
}

proof fn lemma_min_of_push(s: Seq<u32>, k: int)
    requires
        0 <= k < s.len(),
    ensures
        min_of(s.take(k + 1)) == if k == 0 {
            s[0]
        } else if s[k] < min_of(s.take(k)) {
            s[k]
        } else {
            min_of(s.take(k))
        },
{
    assert(s.take(k + 1).drop_last() =~= s.take(k));
}

/// One step of freeing: entry `cs[k]` set free in both tables.
#[verifier::spinoff_prover]
proof fn lemma_free_step(fat: FAT, v0: Seq<Seq<u8>>, before: Seq<Seq<u8>>, after: Seq<Seq<u8>>, cs: Seq<u32>, k: int)
    requires
        crate::block_dev::sectors_ok(before),
        fat.fits(before.len() as int),
        fat.apart(),
        0 <= k < cs.len(),
        forall|j: int| 0 <= j < cs.len() ==> 2 <= #[trigger] cs[j] < fat.n_entry,
        after == fat.set_next(before, cs[k] as int, FREE_CLUSTER),
        v0.len() == before.len(),
        forall|j: int|
            0 <= j < k ==> fat.fat1(before, #[trigger] cs[j] as int) == FREE_CLUSTER && fat.fat2(before, cs[j] as int) == FREE_CLUSTER,
        forall|d: int|
            0 <= d < fat.n_entry && !cs.take(k).contains(d as u32) ==> #[trigger] fat.fat1(before, d)
                == fat.fat1(v0, d) && fat.fat2(before, d) == fat.fat2(v0, d),
        forall|s: int| 0 <= s < v0.len() && !fat.in_tables(s) ==> #[trigger] before[s] == v0[s],
    ensures
        after.len() == before.len(),
        forall|j: int|
            0 <= j < k + 1 ==> fat.fat1(after, #[trigger] cs[j] as int) == FREE_CLUSTER && fat.fat2(after, cs[j] as int) == FREE_CLUSTER,
        forall|d: int|
            0 <= d < fat.n_entry && !cs.take(k + 1).contains(d as u32) ==> #[trigger] fat.fat1(after, d)
                == fat.fat1(v0, d) && fat.fat2(after, d) == fat.fat2(v0, d),
        forall|s: int| 0 <= s < v0.len() && !fat.in_tables(s) ==> #[trigger] after[s] == v0[s],
{
    let c = cs[k];
    fat.lemma_set_next_frame(before, c as int, FREE_CLUSTER);
    assert forall|j: int| 0 <= j < k + 1 implies fat.fat1(after, #[trigger] cs[j] as int) == FREE_CLUSTER && fat.fat2(after, cs[j] as int) == FREE_CLUSTER by {
    }
    assert forall|d: int| 0 <= d < fat.n_entry && !cs.take(k + 1).contains(d as u32) implies #[trigger] fat.fat1(after, d)
        == fat.fat1(v0, d) && fat.fat2(after, d) == fat.fat2(v0, d) by {
        assert(cs.take(k + 1)[k] == c);
        if d == c as int {
            assert(cs.take(k + 1).contains(d as u32));
        }
        if cs.take(k).contains(d as u32) {
            let q = choose|q: int| 0 <= q < k && cs.take(k)[q] == d as u32;
            assert(cs.take(k + 1)[q] == d as u32);
        }
        assert(d != c);
    }
}

} // verus!

verus! {

impl<D: BlockDevice> FAT32Manager<D> {
    /// Splits a long name into 13-byte chunks, as `names::long_name_split`.
    pub fn long_name_split(&self, name: &[u8], end0: bool) -> (r: Vec<Vec<u8>>)
        ensures
            r@.len() == crate::names::chunk_count(name@.len() as int),
            forall|i: int|
                0 <= i < r@.len() ==> #[trigger] r@[i]@ == if end0 && i == r@.len() - 1
                    && crate::names::chunk(name@, i).len() < crate::layout::LONG_NAME_LEN {
                    crate::names::chunk(name@, i).push(0)
                } else {
                    crate::names::chunk(name@, i)
                },
    {
        crate::names::long_name_split(name, end0)
    }

    /// Splits a name at its dots, as `names::split_name_ext`.
    pub fn split_name_ext(&self, name: &[u8]) -> (r: (Vec<u8>, Vec<u8>))
        ensures
            r.0@ == crate::names::base_part(name@),
            r.1@ == crate::names::ext_part(name@),
    {
        crate::names::split_name_ext(name)
    }

    /// The padded upper-case 8.3 fields of a short name.
    pub fn short_name_format(&self, name: &[u8]) -> (r: ([u8; 8], [u8; 3]))
        ensures
            r.0@ == crate::names::short_fields(name@).0,
            r.1@ == crate::names::short_fields(name@).1,
    {
        crate::names::short_name_format(name)
    }

    /// The `~1` short name of a long name.
    pub fn generate_short_name(&self, long_name: &[u8]) -> (r: Vec<u8>)
        ensures
            r@ == crate::names::generated_short(long_name@),
    {
        crate::names::generate_short_name(long_name)
    }

    /// Clusters to add for an entry to grow from `old_size` to `new_size`
    /// bytes: none when it does not grow; for a directory, what the new size
    /// needs beyond the clusters its chain has; for a file, the difference
    /// of what the two sizes need.
    pub fn cluster_num_needed(&mut self, old_size: u32, new_size: u32, is_dir: bool, first_cluster: u32) -> (r: u32)
        requires
            old(self).wf(),
        ensures
            final(self).wf(),
            final(self).same_but_cache(old(self)),
            final(self).view() == old(self).view(),
            r as int == if old_size >= new_size {
                0
            } else {
                let need = (new_size as int + old(self).bytes_per_cluster - 1) / old(self).bytes_per_cluster as int;
                let have = if is_dir {
                    if first_cluster == 0 { 0 } else { old(self).chain(first_cluster).len() as int }
                } else {
                    (old_size as int + old(self).bytes_per_cluster - 1) / old(self).bytes_per_cluster as int
                };
                if need > have { need - have } else { 0 }
            },
    {
        if old_size >= new_size {
            return 0;
        }
        let need = self.size_to_clusters(new_size);
        let have = if is_dir {
            proof {
                self.cache.lemma_wf();
            }
            self.fat.count_cluster_num(first_cluster, &mut self.cache)
        } else {
            self.size_to_clusters(old_size)
        };
        if need > have {
            need - have
        } else {
            0
        }
    }

    /// The root directory.
    pub fn get_root_vfile(&self) -> (r: crate::vfs::VFile)
        ensures
            r.is_root,
            r.attribute == ATTRIBUTE_DIRECTORY,
    {
        crate::vfs::VFile::root()
    }
}

/// Writes the reserved head of a table into sector `block_id`: entries 0
/// and 1 all ones, entry 2 the end of the root directory's chain.
pub fn create_fat<D: BlockDevice>(block_id: usize, cache: &mut BlockCache<D>)
    requires
        old(cache).wf(),
        block_id < old(cache).view().len(),
    ensures
        final(cache).wf(),
        final(cache).same_shape(old(cache)),
        final(cache).view() == old(cache).view().update(
            block_id as int,
            splice(
                old(cache).view()[block_id as int],
                0,
                seq![0xFFu8, 0xFF, 0xFF, 0xFF, 0xFF, 0xFF, 0xFF, 0xFF, 0xFF, 0xFF, 0xFF, 0x0F],
            ),
        ),
{
    let head: [u8; 12] = [0xFF, 0xFF, 0xFF, 0xFF, 0xFF, 0xFF, 0xFF, 0xFF, 0xFF, 0xFF, 0xFF, 0x0F];
    assert(head@ =~= seq![0xFFu8, 0xFF, 0xFF, 0xFF, 0xFF, 0xFF, 0xFF, 0xFF, 0xFF, 0xFF, 0xFF, 0x0F]);
    cache.write(block_id, 0, &head, Pool::Info);
}

} // verus!

verus! {

/// A new allocation shares no cluster with a live chain: every cluster of
/// a chain in use has a non-free entry, and every allocated cluster had a
/// free one.
pub proof fn lemma_alloc_disjoint_from_live<D: BlockDevice>(
    m0: &FAT32Manager<D>,
    m1: &FAT32Manager<D>,
    first: u32,
    num: u32,
    live: Seq<u32>,
)
    requires
        m1.allocated(m0, first, num),
        forall|j: int| 0 <= j < live.len() ==> m0.fat.fat1(m0.view(), #[trigger] live[j] as int) != FREE_CLUSTER,
    ensures
        forall|i: int, j: int|
            0 <= i < m1.chain(first).len() && 0 <= j < live.len() ==> #[trigger] m1.chain(first)[i] != #[trigger] live[j],
{
    let ch = m1.chain(first);
    assert forall|i: int, j: int| 0 <= i < ch.len() && 0 <= j < live.len() implies #[trigger] ch[i] != #[trigger] live[j] by {
        assert(m0.fat.fat1(m0.view(), ch[i] as int) == FREE_CLUSTER);
        assert(m0.fat.fat1(m0.view(), live[j] as int) != FREE_CLUSTER);
    }
}


/// Number of clusters of `cs` in `[lo, hi)`.
pub open spec fn count_in(cs: Seq<u32>, lo: int, hi: int) -> nat
    decreases cs.len(),
{
    if cs.len() == 0 {
        0
    } else {
        count_in(cs.drop_last(), lo, hi) + if lo <= cs.last() < hi {
            1nat
        } else {
            0nat
        }
    }
}

proof fn lemma_count_in_step(cs: Seq<u32>, lo: int, hi: int)
    requires
        cs.no_duplicates(),
        lo <= hi,
    ensures
        count_in(cs, lo, hi + 1) == count_in(cs, lo, hi) + if cs.contains(hi as u32) && 0 <= hi <= u32::MAX {
            1nat
        } else {
            0nat
        },
    decreases cs.len(),
{
    if cs.len() > 0 {
        let t = cs.drop_last();
        assert(t.no_duplicates());
        lemma_count_in_step(t, lo, hi);
        if 0 <= hi <= u32::MAX {
            if cs.last() == hi as u32 {
                assert(!t.contains(hi as u32));
                assert(cs.contains(hi as u32));
            } else {
                assert(cs.contains(hi as u32) == t.contains(hi as u32)) by {
                    if cs.contains(hi as u32) {
                        let j = choose|j: int| 0 <= j < cs.len() && cs[j] == hi as u32;
                        assert(j < t.len());
                        assert(t[j] == hi as u32);
                    }
                    if t.contains(hi as u32) {
                        let j = choose|j: int| 0 <= j < t.len() && t[j] == hi as u32;
                        assert(cs[j] == hi as u32);
                    }
                }
            }
        }
    }
}

proof fn lemma_count_in_all(cs: Seq<u32>, lo: int, hi: int)
    requires
        forall|j: int| 0 <= j < cs.len() ==> lo <= #[trigger] cs[j] < hi,
    ensures
        count_in(cs, lo, hi) == cs.len(),
    decreases cs.len(),
{
    if cs.len() > 0 {
        lemma_count_in_all(cs.drop_last(), lo, hi);
    }
}

/// Where the FAT1 entries of the clusters of `cs` turn from free to in use
/// and no other entry in `[lo, hi)` changes, the free entries there drop
/// by the clusters of `cs` in that range.
proof fn lemma_count_free_change(fat: FAT, v0: Seq<Seq<u8>>, v1: Seq<Seq<u8>>, cs: Seq<u32>, lo: int, hi: int)
    requires
        0 <= lo,
        hi <= fat.n_entry,
        cs.no_duplicates(),
        forall|j: int| 0 <= j < cs.len() ==> fat.fat1(v0, #[trigger] cs[j] as int) == FREE_CLUSTER,
        forall|j: int| 0 <= j < cs.len() ==> fat.fat1(v1, #[trigger] cs[j] as int) != FREE_CLUSTER,
        forall|d: int| 0 <= d < fat.n_entry && !cs.contains(d as u32) ==> #[trigger] fat.fat1(v1, d) == fat.fat1(v0, d),
    ensures
        fat.count_free(v1, lo, hi) + count_in(cs, lo, hi) == fat.count_free(v0, lo, hi),
    decreases hi - lo,
{
    reveal(FAT::count_free);
    if hi <= lo {
        lemma_count_in_zero(cs, lo, hi);
    } else {
        lemma_count_free_change(fat, v0, v1, cs, lo, hi - 1);
        lemma_count_in_step(cs, lo, hi - 1);
        let d = hi - 1;
        if cs.contains(d as u32) {
            let j = choose|j: int| 0 <= j < cs.len() && cs[j] == d as u32;
            assert(cs[j] as int == d);
        }
    }
}

proof fn lemma_count_in_zero(cs: Seq<u32>, lo: int, hi: int)
    requires
        hi <= lo,
    ensures
        count_in(cs, lo, hi) == 0,
    decreases cs.len(),
{
    if cs.len() > 0 {
        lemma_count_in_zero(cs.drop_last(), lo, hi);
    }
}

/// Allocation keeps the free count exact: where FS-info counted the free
/// entries of the table before, it counts them after.
pub proof fn lemma_alloc_keeps_count_exact<D: BlockDevice>(m0: &FAT32Manager<D>, m1: &FAT32Manager<D>, first: u32, num: u32)
    requires
        m1.allocated(m0, first, num),
        m1.fat == m0.fat,
        m0.free_count() == m0.fat.count_free(m0.view(), 2, m0.fat.n_entry as int),
    ensures
        m1.free_count() == m1.fat.count_free(m1.view(), 2, m1.fat.n_entry as int),
{
    let ch = m1.chain(first);
    let fat = m0.fat;
    assert(ch.no_duplicates()) by {
        assert forall|a: int, b: int| 0 <= a < ch.len() && 0 <= b < ch.len() && a != b implies ch[a] != ch[b] by {
            if a < b {
                assert(ch[a] < ch[b]);
            } else {
                assert(ch[b] < ch[a]);
            }
        }
    }
    assert forall|j: int| 0 <= j < ch.len() implies fat.fat1(m1.view(), #[trigger] ch[j] as int) != FREE_CLUSTER by {
        if j < ch.len() - 1 {
            assert(fat.fat1(m1.view(), ch[j] as int) == ch[j + 1]);
        }
    }
    lemma_count_free_change(fat, m0.view(), m1.view(), ch, 2, fat.n_entry as int);
    lemma_count_in_all(ch, 2, fat.n_entry as int);
}

/// Release keeps the free count exact: where FS-info counted the free
/// entries of the table before, and the released clusters were distinct
/// and in use, it counts them after (the count not wrapping).
pub proof fn lemma_dealloc_keeps_count_exact<D: BlockDevice>(m0: &FAT32Manager<D>, m1: &FAT32Manager<D>, cs: Seq<u32>)
    requires
        m1.fat == m0.fat,
        cs.len() > 0,
        cs.no_duplicates(),
        forall|j: int| 0 <= j < cs.len() ==> 2 <= #[trigger] cs[j] < m0.fat.n_entry,
        forall|j: int| 0 <= j < cs.len() ==> m0.fat.fat1(m0.view(), #[trigger] cs[j] as int) != FREE_CLUSTER,
        forall|j: int| 0 <= j < cs.len() ==> m1.fat.fat1(m1.view(), #[trigger] cs[j] as int) == FREE_CLUSTER,
        forall|d: int|
            0 <= d < m0.fat.n_entry && !cs.contains(d as u32) ==> #[trigger] m1.fat.fat1(m1.view(), d) == m0.fat.fat1(m0.view(), d),
        m1.free_count() as int == (m0.free_count() as int + cs.len()) % 0x1_0000_0000,
        m0.free_count() + cs.len() <= u32::MAX,
        m0.free_count() == m0.fat.count_free(m0.view(), 2, m0.fat.n_entry as int),
    ensures
        m1.free_count() == m1.fat.count_free(m1.view(), 2, m1.fat.n_entry as int),
{
    let fat = m0.fat;
    lemma_count_free_change(fat, m1.view(), m0.view(), cs, 2, fat.n_entry as int);
    lemma_count_in_all(cs, 2, fat.n_entry as int);
}

} // verus!
