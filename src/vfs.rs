//! Files and directories: positional reads and writes over a cluster chain.
use vstd::prelude::*;

use crate::block_cache::Pool;
use crate::block_dev::BlockDevice;
use crate::fat32_manager::FAT32Manager;
use crate::fat32_manager::FsError;
use crate::layout::{ShortDirEntry, END_CLUSTER};
use crate::utils::u16_at;
use crate::BLOCK_SZ;
use vstd::arithmetic::div_mod::{
    lemma_div_pos_is_pos, lemma_fundamental_div_mod, lemma_fundamental_div_mod_converse,
    lemma_mod_bound,
};

verus! {

/// Number of leading clusters of `cs` that lie in `[2, n)`.
pub open spec fn valid_len(cs: Seq<u32>, n: int) -> int
    decreases cs.len(),
{
    if cs.len() == 0 {
        0
    } else if !(2 <= cs[0] < n) {
        0
    } else {
        1 + valid_len(cs.drop_first(), n)
    }
}

/// Byte `o` of the data held by clusters `cs`, with clusters of `spc`
/// sectors from sector `root` on.
pub open spec fn byte_in(v: Seq<Seq<u8>>, root: int, spc: int, cs: Seq<u32>, o: int) -> u8 {
    let bpc = spc * 512;
    v[root + (cs[o / bpc] - 2) * spc + (o % bpc) / 512][o % 512]
}

/// All bytes held by clusters `cs`, in chain order.
pub open spec fn chain_data(v: Seq<Seq<u8>>, root: int, spc: int, cs: Seq<u32>) -> Seq<u8> {
    Seq::new((cs.len() * spc * 512) as nat, |o: int| byte_in(v, root, spc, cs, o))
}

proof fn lemma_valid_len(cs: Seq<u32>, n: int, i: int)
    requires
        0 <= i <= cs.len(),
        forall|j: int| 0 <= j < i ==> 2 <= #[trigger] cs[j] < n,
        i == cs.len() || !(2 <= cs[i] < n),
    ensures
        valid_len(cs, n) == i,
    decreases cs.len(),
{
    if cs.len() > 0 && i > 0 {
        lemma_valid_len(cs.drop_first(), n, i - 1);
    }
}

/// Where byte `pos + t` lies, for `t` within the rest of `pos`'s sector.
proof fn lemma_pos(pos: int, spc: int, t: int)
    requires
        pos >= 0,
        spc >= 1,
        0 <= t < 512 - pos % 512,
    ensures
        (pos + t) / (spc * 512) == pos / (spc * 512),
        ((pos + t) % (spc * 512)) / 512 == (pos % (spc * 512)) / 512,
        (pos + t) % 512 == pos % 512 + t,
        pos % 512 == (pos % (spc * 512)) % 512,
{
    let bpc = spc * 512;
    assert(bpc > 0) by (nonlinear_arith)
        requires
            spc >= 1,
            bpc == spc * 512,
    ;
    let ci = pos / bpc;
    let r = pos % bpc;
    lemma_fundamental_div_mod(pos, bpc);
    lemma_mod_bound(pos, bpc);
    let s = r / 512;
    let b = r % 512;
    lemma_fundamental_div_mod(r, 512);
    lemma_mod_bound(r, 512);
    assert(ci >= 0) by {
        lemma_div_pos_is_pos(pos, bpc);
    }
    let q = ci * spc + s;
    assert(pos == q * 512 + b) by (nonlinear_arith)
        requires
            pos == bpc * ci + r,
            r == 512 * s + b,
            bpc == spc * 512,
            q == ci * spc + s,
    ;
    lemma_fundamental_div_mod_converse(pos, 512, q, b);
    assert(s < spc) by (nonlinear_arith)
        requires
            r == 512 * s + b,
            r < spc * 512,
            0 <= b,
    ;
    assert(r + t < bpc) by (nonlinear_arith)
        requires
            r == 512 * s + b,
            s + 1 <= spc,
            b + t < 512,
            bpc == spc * 512,
    ;
    assert(pos + t == ci * bpc + (r + t)) by (nonlinear_arith)
        requires
            pos == bpc * ci + r,
    ;
    lemma_fundamental_div_mod_converse(pos + t, bpc, ci, r + t);
    assert(r + t == s * 512 + (b + t)) by (nonlinear_arith)
        requires
            r == 512 * s + b,
    ;
    lemma_fundamental_div_mod_converse(r + t, 512, s, b + t);
    assert(pos + t == q * 512 + (b + t));
    lemma_fundamental_div_mod_converse(pos + t, 512, q, b + t);
}

impl<D: BlockDevice> FAT32Manager<D> {
    /// The usable clusters of the chain from `first`: up to the first link
    /// outside the table; none for cluster 0.
    pub open spec fn good_chain(&self, first: u32) -> Seq<u32> {
        if first == 0 {
            Seq::empty()
        } else {
            let ch = self.chain(first);
            ch.take(valid_len(ch, self.fat.n_entry as int))
        }
    }

    /// The bytes held by the chain from `first`.
    pub open spec fn file_data(&self, first: u32) -> Seq<u8> {
        chain_data(self.view(), self.root_sector as int, self.sectors_per_cluster as int, self.good_chain(first))
    }

    /// The usable clusters of the chain from `first`.
    pub fn good_clusters(&mut self, first: u32) -> (r: Vec<u32>)
        requires
            old(self).wf(),
        ensures
            final(self).wf(),
            final(self).same_but_cache(old(self)),
            final(self).view() == old(self).view(),
            r@ == old(self).good_chain(first),
            forall|j: int| 0 <= j < r@.len() ==> 2 <= #[trigger] r@[j] < old(self).fat.n_entry,
            r@.len() <= old(self).fat.n_entry,
    {
        if first == 0 {
            return Vec::new();
        }
        proof {
            self.cache.lemma_wf();
        }
        let all = self.fat.get_all_cluster_of(first, &mut self.cache);
        proof {
            self.fat.lemma_chain_len(self.view(), first, self.fat.n_entry as nat);
        }
        let mut out: Vec<u32> = Vec::new();
        let mut i: usize = 0;
        while i < all.len() && 2 <= all[i] && all[i] < self.fat.n_entry
            invariant
                i <= all@.len(),
                out@ == all@.take(i as int),
                forall|j: int| 0 <= j < i ==> 2 <= #[trigger] all@[j] < self.fat.n_entry,
            decreases all@.len() - i,
        {
            out.push(all[i]);
            assert(all@.take(i + 1) =~= all@.take(i as int).push(all@[i as int]));
            i += 1;
        }
        proof {
            lemma_valid_len(all@, self.fat.n_entry as int, i as int);
        }
        out
    }
}

/// The end of a read or write of `len` bytes at `offset` bounded by `limit`.
pub open spec fn stop_at(offset: int, len: int, limit: int) -> int {
    if offset + len < limit {
        offset + len
    } else {
        limit
    }
}

impl ShortDirEntry {
    /// How far this entry's data reaches: its size for a file, its clusters
    /// for a directory; never past the chain's data.
    pub open spec fn limit(&self, data_len: int) -> int {
        let l = if self.attribute & crate::layout::ATTRIBUTE_DIRECTORY != 0 {
            data_len
        } else if (self.size as int) < data_len {
            self.size as int
        } else {
            data_len
        };
        if l < u32::MAX { l } else { u32::MAX as int }
    }

    /// Reads up to `len` bytes at `offset` of this entry's data: through the
    /// info pool for a directory, the data pool for a file.
    pub fn read_at<D: BlockDevice>(&self, offset: usize, len: usize, manager: &mut FAT32Manager<D>) -> (r: Vec<u8>)
        requires
            old(manager).wf(),
        ensures
            final(manager).wf(),
            final(manager).same_but_cache(old(manager)),
            final(manager).view() == old(manager).view(),
            ({
                let data = old(manager).file_data(self.spec_first_cluster());
                let stop = stop_at(offset as int, len as int, self.limit(data.len() as int));
                r@ == if offset < stop {
                    data.subrange(offset as int, stop)
                } else {
                    Seq::empty()
                }
            }),
    {
        let first = self.first_cluster();
        let ghost data = manager.file_data(first);
        let cs = manager.good_clusters(first);
        let spc = manager.sectors_per_cluster as usize;
        let bpc = manager.bytes_per_cluster as u64;
        proof {
            assert(cs@.len() * bpc <= 0x1000_0000 * (255 * 512)) by (nonlinear_arith)
                requires
                    cs@.len() <= 0x1000_0000,
                    bpc <= 255 * 512,
            ;
        }
        let total: u64 = cs.len() as u64 * bpc;
        assert(total == data.len()) by (nonlinear_arith)
            requires
                total == cs@.len() * bpc,
                bpc == spc * 512,
                data.len() == cs@.len() * spc * 512,
        ;
        let is_dir = self.is_dir();
        let l: u64 = if is_dir {
            total
        } else if (self.size as u64) < total {
            self.size as u64
        } else {
            total
        };
        let limit: usize = if l < u32::MAX as u64 {
            l as usize
        } else {
            u32::MAX as usize
        };
        let stop: usize = if len < limit && offset < limit - len {
            offset + len
        } else {
            limit
        };
        let mut out: Vec<u8> = Vec::new();
        if offset >= stop {
            return out;
        }
        let pool = if is_dir {
            Pool::Info
        } else {
            Pool::Data
        };
        let ghost v = manager.view();
        let mut pos: usize = offset;
        while pos < stop
            invariant
                manager.wf(),
                manager.same_but_cache(old(manager)),
                manager.view() == v,
                v == old(manager).view(),
                offset <= pos <= stop,
                stop <= data.len(),
                data == chain_data(v, manager.root_sector as int, spc as int, cs@),
                spc == manager.sectors_per_cluster,
                bpc == spc * 512,
                forall|j: int| 0 <= j < cs@.len() ==> 2 <= #[trigger] cs@[j] < manager.fat.n_entry,
                out@ == data.subrange(offset as int, pos as int),
            decreases stop - pos,
        {
            let ci = pos / (bpc as usize);
            let within = pos % (bpc as usize);
            let in_sec = pos % BLOCK_SZ;
            let n = if BLOCK_SZ - in_sec < stop - pos {
                BLOCK_SZ - in_sec
            } else {
                stop - pos
            };
            proof {
                assert(ci < cs@.len()) by (nonlinear_arith)
                    requires
                        ci == pos as int / bpc as int,
                        pos < data.len(),
                        data.len() == cs@.len() * spc * 512,
                        bpc == spc * 512,
                        spc >= 1,
                ;
            }
            let cl = cs[ci];
            proof {
                assert(within / 512 < spc) by (nonlinear_arith)
                    requires
                        within == pos as int % bpc as int,
                        bpc == spc * 512,
                        spc >= 1,
                ;
                manager.cache.lemma_wf();
            }
            let sec = manager.first_sector_of_cluster(cl) + within / BLOCK_SZ;
            let bytes = manager.cache.read(sec, in_sec, n, pool);
            proof {
                assert forall|t: int| 0 <= t < n implies #[trigger] bytes@[t] == data[pos + t] by {
                    lemma_pos(pos as int, spc as int, t);
                }
                assert(bytes@ =~= data.subrange(pos as int, pos + n));
            }
            let mut k: usize = 0;
            while k < n
                invariant
                    k <= n,
                    bytes@.len() == n,
                    offset <= pos,
                    pos + n <= stop,
                    stop <= data.len(),
                    bytes@ == data.subrange(pos as int, pos + n),
                    out@ == data.subrange(offset as int, pos + k),
                decreases n - k,
            {
                out.push(bytes[k]);
                assert(out@ =~= data.subrange(offset as int, pos + k + 1));
                k += 1;
            }
            pos = pos + n;
        }
        out
    }
}


/// Two offsets of a duplicate-free chain's data that lie in one sector lie
/// in one 512-byte block of the data.
proof fn lemma_sector_inj(spc: int, cs: Seq<u32>, o1: int, o2: int)
    requires
        spc >= 1,
        cs.no_duplicates(),
        0 <= o1 < cs.len() * spc * 512,
        0 <= o2 < cs.len() * spc * 512,
        (cs[o1 / (spc * 512)] - 2) * spc + (o1 % (spc * 512)) / 512 == (cs[o2 / (spc * 512)] - 2)
            * spc + (o2 % (spc * 512)) / 512,
        forall|j: int| 0 <= j < cs.len() ==> 2 <= #[trigger] cs[j],
    ensures
        o1 / 512 == o2 / 512,
{
    let bpc = spc * 512;
    assert(bpc > 0) by (nonlinear_arith)
        requires
            spc >= 1,
            bpc == spc * 512,
    ;
    lemma_fundamental_div_mod(o1, bpc);
    lemma_mod_bound(o1, bpc);
    lemma_fundamental_div_mod(o2, bpc);
    lemma_mod_bound(o2, bpc);
    let c1 = o1 / bpc;
    let c2 = o2 / bpc;
    lemma_div_pos_is_pos(o1, bpc);
    lemma_div_pos_is_pos(o2, bpc);
    let n = cs.len() as int;
    assert(n * spc * 512 == n * bpc) by (nonlinear_arith)
        requires
            bpc == spc * 512,
    ;
    assert(c1 < n) by (nonlinear_arith)
        requires
            bpc * c1 <= o1,
            o1 < n * bpc,
            bpc > 0,
    ;
    assert(c2 < n) by (nonlinear_arith)
        requires
            bpc * c2 <= o2,
            o2 < n * bpc,
            bpc > 0,
    ;
    let s1 = (o1 % bpc) / 512;
    let s2 = (o2 % bpc) / 512;
    lemma_fundamental_div_mod(o1 % bpc, 512);
    lemma_fundamental_div_mod(o2 % bpc, 512);
    lemma_mod_bound(o1 % bpc, 512);
    lemma_mod_bound(o2 % bpc, 512);
    lemma_div_pos_is_pos(o1 % bpc, 512);
    lemma_div_pos_is_pos(o2 % bpc, 512);
    assert(s1 < spc && s2 < spc) by (nonlinear_arith)
        requires
            o1 % bpc == 512 * s1 + (o1 % bpc) % 512,
            o2 % bpc == 512 * s2 + (o2 % bpc) % 512,
            o1 % bpc < bpc,
            o2 % bpc < bpc,
            (o1 % bpc) % 512 >= 0,
            (o2 % bpc) % 512 >= 0,
            bpc == spc * 512,
    ;
    let k1 = cs[c1] - 2;
    let k2 = cs[c2] - 2;
    lemma_fundamental_div_mod_converse(k1 * spc + s1, spc, k1, s1);
    lemma_fundamental_div_mod_converse(k2 * spc + s2, spc, k2, s2);
    assert(cs[c1] == cs[c2]);
    assert(c1 == c2);
    assert(s1 == s2);
    let q1 = c1 * spc + s1;
    assert(o1 == q1 * 512 + (o1 % bpc) % 512) by (nonlinear_arith)
        requires
            o1 == bpc * c1 + o1 % bpc,
            o1 % bpc == 512 * s1 + (o1 % bpc) % 512,
            bpc == spc * 512,
            q1 == c1 * spc + s1,
    ;
    assert(o2 == q1 * 512 + (o2 % bpc) % 512) by (nonlinear_arith)
        requires
            o2 == bpc * c1 + o2 % bpc,
            o2 % bpc == 512 * s1 + (o2 % bpc) % 512,
            bpc == spc * 512,
            q1 == c1 * spc + s1,
    ;
    lemma_fundamental_div_mod_converse(o1, 512, q1, (o1 % bpc) % 512);
    lemma_fundamental_div_mod_converse(o2, 512, q1, (o2 % bpc) % 512);
}


/// The sector that holds byte `o` of the data of clusters `cs`.
pub open spec fn sector_of(root: int, spc: int, cs: Seq<u32>, o: int) -> int {
    root + (cs[o / (spc * 512)] - 2) * spc + (o % (spc * 512)) / 512
}

/// Writing bytes into one sector of a duplicate-free chain writes them at
/// the matching offsets of the chain's data, and nowhere else.
proof fn lemma_write_step(
    v: Seq<Seq<u8>>,
    root: int,
    spc: int,
    cs: Seq<u32>,
    pos: int,
    chunk: Seq<u8>,
)
    requires
        spc >= 1,
        cs.no_duplicates(),
        forall|j: int| 0 <= j < cs.len() ==> 2 <= #[trigger] cs[j],
        0 <= pos,
        chunk.len() > 0,
        pos + chunk.len() <= cs.len() * spc * 512,
        chunk.len() <= 512 - pos % 512,
        ({
            let sec = root + (cs[pos / (spc * 512)] - 2) * spc + (pos % (spc * 512)) / 512;
            0 <= sec < v.len() && v[sec].len() == 512
        }),
        forall|o: int|
            0 <= o < cs.len() * spc * 512 ==> 0 <= #[trigger] sector_of(root, spc, cs, o) < v.len()
                && v[sector_of(root, spc, cs, o)].len() == 512,
    ensures
        ({
            let sec = root + (cs[pos / (spc * 512)] - 2) * spc + (pos % (spc * 512)) / 512;
            let v2 = v.update(sec, crate::utils::splice(v[sec], pos % 512, chunk));
            chain_data(v2, root, spc, cs) == crate::utils::splice(chain_data(v, root, spc, cs), pos, chunk)
        }),
{
    let bpc = spc * 512;
    let sec = root + (cs[pos / bpc] - 2) * spc + (pos % bpc) / 512;
    let in_sec = pos % 512;
    let v2 = v.update(sec, crate::utils::splice(v[sec], in_sec, chunk));
    let d1 = chain_data(v, root, spc, cs);
    let d2 = chain_data(v2, root, spc, cs);
    let want = crate::utils::splice(d1, pos, chunk);
    assert(d1.len() == cs.len() * spc * 512);
    assert(sector_of(root, spc, cs, pos) == sec);
    assert forall|o: int| 0 <= o < d2.len() implies #[trigger] d2[o] == want[o] by {
        let so = sector_of(root, spc, cs, o);
        assert(0 <= so < v.len() && v[so].len() == 512);
        lemma_mod_bound(o, 512);
        lemma_mod_bound(pos, 512);
        assert(d2[o] == v2[so][o % 512]);
        assert(d1[o] == v[so][o % 512]);
        if pos <= o < pos + chunk.len() {
            lemma_pos(pos, spc, o - pos);
            assert(so == sec);
            assert(o % 512 == in_sec + (o - pos));
            assert(v2[so][o % 512] == chunk[o - pos]);
            assert(want[o] == chunk[o - pos]);
        } else {
            assert(want[o] == d1[o]);
            if so == sec {
                lemma_sector_inj(spc, cs, o, pos);
                lemma_fundamental_div_mod(o, 512);
                lemma_fundamental_div_mod(pos, 512);
                assert(!(in_sec <= o % 512 < in_sec + chunk.len()));
                assert(v2[so][o % 512] == v[so][o % 512]);
            } else {
                assert(v2[so] == v[so]);
            }
        }
    }
    assert(d2 =~= want);
}

impl ShortDirEntry {
    /// Writes `buf` at `offset` of this entry's data, never past `limit`:
    /// the size of a file, the clusters of a directory. Returns the number
    /// of bytes written. The tables do not change; where the chain has no
    /// repeated cluster, the data afterwards is the old data with those
    /// bytes in place.
    pub fn write_at<D: BlockDevice>(&self, offset: usize, buf: &[u8], manager: &mut FAT32Manager<D>) -> (r: usize)
        requires
            old(manager).wf(),
        ensures
            final(manager).wf(),
            final(manager).same_but_cache(old(manager)),
            final(manager).view().len() == old(manager).view().len(),
            final(manager).same_tables(old(manager).view(), final(manager).view()),
            final(manager).view()[old(manager).fsinfo.sector_num as int] == old(manager).view()[old(manager).fsinfo.sector_num as int],
            final(manager).good_chain(self.spec_first_cluster()) == old(manager).good_chain(self.spec_first_cluster()),
            forall|s: int|
                0 <= s < old(manager).view().len() && (forall|o: int|
                    0 <= o < old(manager).file_data(self.spec_first_cluster()).len() ==> #[trigger] sector_of(
                        old(manager).root_sector as int,
                        old(manager).sectors_per_cluster as int,
                        old(manager).good_chain(self.spec_first_cluster()),
                        o,
                    ) != s) ==> #[trigger] final(manager).view()[s] == old(manager).view()[s],
            ({
                let data = old(manager).file_data(self.spec_first_cluster());
                let stop = stop_at(offset as int, buf@.len() as int, self.limit(data.len() as int));
                &&& r == if offset < stop { stop - offset } else { 0 }
                &&& r == 0 ==> final(manager).view() == old(manager).view()
                &&& r > 0 && old(manager).good_chain(self.spec_first_cluster()).no_duplicates() ==> final(manager).file_data(self.spec_first_cluster())
                    == crate::utils::splice(data, offset as int, buf@.take(r as int))
            }),
    {
        let first = self.first_cluster();
        let ghost data0 = manager.file_data(first);
        let ghost v0 = manager.view();
        let cs = manager.good_clusters(first);
        let spc = manager.sectors_per_cluster as usize;
        let bpc = manager.bytes_per_cluster as u64;
        proof {
            assert(cs@.len() * bpc <= 0x1000_0000 * (255 * 512)) by (nonlinear_arith)
                requires
                    cs@.len() <= 0x1000_0000,
                    bpc <= 255 * 512,
            ;
        }
        let total: u64 = cs.len() as u64 * bpc;
        assert(total == data0.len()) by (nonlinear_arith)
            requires
                total == cs@.len() * bpc,
                bpc == spc * 512,
                data0.len() == cs@.len() * spc * 512,
        ;
        let is_dir = self.is_dir();
        let l: u64 = if is_dir {
            total
        } else if (self.size as u64) < total {
            self.size as u64
        } else {
            total
        };
        let limit: usize = if l < u32::MAX as u64 {
            l as usize
        } else {
            u32::MAX as usize
        };
        let len = buf.len();
        let stop: usize = if len < limit && offset < limit - len {
            offset + len
        } else {
            limit
        };
        if offset >= stop {
            return 0;
        }
        let pool = if is_dir {
            Pool::Info
        } else {
            Pool::Data
        };
        let ghost root = manager.root_sector as int;
        let mut pos: usize = offset;
        while pos < stop
            invariant
                manager.wf(),
                manager.same_but_cache(old(manager)),
                v0 == old(manager).view(),
                manager.view().len() == v0.len(),
                manager.same_tables(v0, manager.view()),
                manager.view()[manager.fsinfo.sector_num as int] == v0[manager.fsinfo.sector_num as int],
                offset <= pos <= stop,
                stop <= data0.len(),
                stop - offset <= buf@.len(),
                root == manager.root_sector,
                data0 == chain_data(v0, root, spc as int, cs@),
                spc == manager.sectors_per_cluster,
                bpc == spc * 512,
                data0.len() == cs@.len() * spc * 512,
                forall|j: int| 0 <= j < cs@.len() ==> 2 <= #[trigger] cs@[j] < manager.fat.n_entry,
                cs@.no_duplicates() ==> chain_data(manager.view(), root, spc as int, cs@)
                    == crate::utils::splice(data0, offset as int, buf@.subrange(0, pos - offset)),
                forall|s: int|
                    0 <= s < v0.len() && (forall|o: int|
                        0 <= o < data0.len() ==> #[trigger] sector_of(root, spc as int, cs@, o) != s) ==> #[trigger] manager.view()[s]
                        == v0[s],
            decreases stop - pos,
        {
            let ci = pos / (bpc as usize);
            let within = pos % (bpc as usize);
            let in_sec = pos % BLOCK_SZ;
            let n = if BLOCK_SZ - in_sec < stop - pos {
                BLOCK_SZ - in_sec
            } else {
                stop - pos
            };
            proof {
                assert(ci < cs@.len()) by (nonlinear_arith)
                    requires
                        ci == pos as int / bpc as int,
                        pos < data0.len(),
                        data0.len() == cs@.len() * spc * 512,
                        bpc == spc * 512,
                        spc >= 1,
                ;
                assert(within / 512 < spc) by (nonlinear_arith)
                    requires
                        within == pos as int % bpc as int,
                        bpc == spc * 512,
                        spc >= 1,
                ;
                manager.cache.lemma_wf();
            }
            let cl = cs[ci];
            let sec = manager.first_sector_of_cluster(cl) + within / BLOCK_SZ;
            let written = pos - offset;
            let chunk = vstd::slice::slice_subrange(buf, written, written + n);
            let ghost before = manager.view();
            manager.cache.write(sec, in_sec, chunk, pool);
            proof {
                let after = manager.view();
                assert(sec == sector_of(root, spc as int, cs@, pos as int));
                assert forall|s: int| 0 <= s < v0.len() && (forall|o: int|
                    0 <= o < data0.len() ==> #[trigger] sector_of(root, spc as int, cs@, o) != s) implies #[trigger] after[s] == v0[s] by {
                    assert(sector_of(root, spc as int, cs@, pos as int) != s);
                    assert(before[s] == v0[s]);
                }
                assert(sec >= manager.root_sector) by (nonlinear_arith)
                    requires
                        sec == manager.root_sector + (cl - 2) * spc + within / 512,
                        cl >= 2,
                        within >= 0,
                ;
                assert forall|t: int| 0 <= t < after.len() && t != sec implies after[t] == before[t] by {}
                manager.lemma_outside_tables(before, after, sec as int);
                assert(manager.fsinfo.sector_num < manager.root_sector);
                if cs@.no_duplicates() {
                    assert forall|o: int| 0 <= o < cs@.len() * spc * 512 implies 0 <= #[trigger] sector_of(root, spc as int, cs@, o) < before.len()
                        && before[sector_of(root, spc as int, cs@, o)].len() == 512 by {
                        reveal(crate::fat32_manager::data_fits);
                        let bb = spc as int * 512;
                        assert(bb > 0);
                        lemma_fundamental_div_mod(o, bb);
                        lemma_mod_bound(o, bb);
                        lemma_div_pos_is_pos(o, bb);
                        assert(o / bb < cs@.len()) by (nonlinear_arith)
                            requires
                                bb * (o / bb) <= o,
                                o < cs@.len() * spc * 512,
                                bb == spc * 512,
                                bb > 0,
                        ;
                        let c = cs@[o / bb];
                        assert((o % bb) / 512 < spc) by (nonlinear_arith)
                            requires
                                0 <= o % bb < bb,
                                bb == spc * 512,
                        ;
                        assert(0 <= (c - 2) * spc + (o % bb) / 512 && (c - 2) * spc + (o % bb) / 512 + 1 <= (manager.fat.n_entry - 2) * spc) by (nonlinear_arith)
                            requires
                                2 <= c,
                                c + 1 <= manager.fat.n_entry,
                                0 <= (o % bb) / 512 < spc,
                                (o % bb) >= 0,
                        ;
                        lemma_div_pos_is_pos(o % bb, 512);
                    }
                    lemma_write_step(before, root, spc as int, cs@, pos as int, chunk@);
                    assert(buf@.subrange(0, pos + n - offset) =~= buf@.subrange(0, pos - offset) + chunk@);
                    assert(crate::utils::splice(crate::utils::splice(data0, offset as int, buf@.subrange(0, pos - offset)), pos as int, chunk@)
                        =~= crate::utils::splice(data0, offset as int, buf@.subrange(0, pos + n - offset)));
                }
            }
            pos = pos + n;
        }
        proof {
            manager.fat.lemma_chain_same(v0, manager.view(), first, manager.fat.n_entry as nat);
            assert(buf@.take((stop - offset) as int) =~= buf@.subrange(0, stop - offset));
        }
        stop - offset
    }
}


/// Reading back what was written: where `buf` fits below the entry's limit,
/// `write_at` writes all of it, the data keeps its length (so the limit
/// stays), and `read_at` of `buf.len()` bytes at the same offset returns
/// `buf`.
pub proof fn lemma_write_then_read(e: ShortDirEntry, data: Seq<u8>, off: int, buf: Seq<u8>)
    requires
        0 <= off,
        buf.len() > 0,
        off + buf.len() <= e.limit(data.len() as int),
    ensures
        stop_at(off, buf.len() as int, e.limit(data.len() as int)) - off == buf.len(),
        crate::utils::splice(data, off, buf).len() == data.len(),
        ({
            let written = crate::utils::splice(data, off, buf);
            let stop = stop_at(off, buf.len() as int, e.limit(written.len() as int));
            &&& stop == off + buf.len()
            &&& written.subrange(off, stop) == buf
        }),
{
    let written = crate::utils::splice(data, off, buf);
    assert(e.limit(data.len() as int) <= data.len());
    assert(written.subrange(off, off + buf.len()) =~= buf);
}

} // verus!

verus! {

/// An open file or directory: where its short slot and long slots lie on
/// disk. The root directory has no slot: its entry lives in the manager.
pub struct VFile {
    pub name: Vec<u8>,
    /// Sector and byte offset of the short slot; unused for the root.
    pub short_sector: usize,
    pub short_offset: usize,
    /// Sector and byte offset of each long slot, in the order stored.
    pub long_pos: Vec<(usize, usize)>,
    pub attribute: u8,
    /// Whether this is the root directory.
    pub is_root: bool,
}

/// What `stat` reports.
#[derive(Clone, Copy, Debug, PartialEq, Eq, Structural)]
pub struct Stat {
    pub size: u32,
    pub first_cluster: u32,
    pub attribute: u8,
    pub access_time: u64,
    pub modify_time: u64,
    pub create_time: u64,
}

impl VFile {
    /// A short slot that lies in the data region of the volume, 32 bytes
    /// in one sector.
    pub open spec fn slot_ok(&self, root: int, nsec: int) -> bool {
        self.is_root || (root <= self.short_sector < nsec && self.short_offset + 32 <= 512)
    }

    /// The short entry of this file in a manager's state: the root's
    /// in-memory entry, or the one decoded from its slot.
    pub open spec fn entry_in<D: BlockDevice>(&self, m: &FAT32Manager<D>, e: ShortDirEntry) -> bool {
        if self.is_root {
            e == m.vroot_dirent
        } else {
            e.parsed_from(
                m.view()[self.short_sector as int].subrange(
                    self.short_offset as int,
                    self.short_offset + 32,
                ),
            )
        }
    }

    /// The root directory.
    pub fn root() -> (r: Self)
        ensures
            r.is_root,
            r.attribute == crate::layout::ATTRIBUTE_DIRECTORY,
    {
        VFile {
            name: vec![0x2F],
            short_sector: 0,
            short_offset: 0,
            long_pos: Vec::new(),
            attribute: crate::layout::ATTRIBUTE_DIRECTORY,
            is_root: true,
        }
    }

    /// This file's short entry as it is on disk now.
    pub fn get_entry<D: BlockDevice>(&self, m: &mut FAT32Manager<D>) -> (r: ShortDirEntry)
        requires
            old(m).wf(),
            self.slot_ok(old(m).root_sector as int, old(m).view().len() as int),
        ensures
            final(m).wf(),
            final(m).same_but_cache(old(m)),
            final(m).view() == old(m).view(),
            self.entry_in(old(m), r),
    {
        if self.is_root {
            return m.get_root_dirent();
        }
        proof {
            m.cache.lemma_wf();
        }
        let b = m.cache.read(self.short_sector, self.short_offset, 32, Pool::Info);
        ShortDirEntry::from_bytes(b.as_slice())
    }

    /// Whether this is a directory.
    pub fn is_dir(&self) -> (r: bool)
        ensures
            r == (self.attribute & crate::layout::ATTRIBUTE_DIRECTORY != 0),
    {
        self.attribute & crate::layout::ATTRIBUTE_DIRECTORY != 0
    }

    /// Size, first cluster, attribute and the three timestamps (in seconds)
    /// of this file.
    pub fn stat<D: BlockDevice>(&self, m: &mut FAT32Manager<D>) -> (r: Stat)
        requires
            old(m).wf(),
            self.slot_ok(old(m).root_sector as int, old(m).view().len() as int),
        ensures
            final(m).wf(),
            final(m).same_but_cache(old(m)),
            final(m).view() == old(m).view(),
            exists|e: ShortDirEntry|
                self.entry_in(old(m), e) && r == (Stat {
                    size: e.size,
                    first_cluster: e.spec_first_cluster(),
                    attribute: e.attribute,
                    access_time: crate::layout::fat_timestamp(e.last_acc_date, 0).6,
                    modify_time: crate::layout::fat_timestamp(e.modification_date, e.modification_time).6,
                    create_time: crate::layout::fat_timestamp(e.creation_date, e.creation_time).6,
                }),
    {
        let e = self.get_entry(m);
        Stat {
            size: e.get_size(),
            first_cluster: e.first_cluster(),
            attribute: e.attribute(),
            access_time: e.get_accessed_time().6,
            modify_time: e.get_modification_time().6,
            create_time: e.get_creation_time().6,
        }
    }

    /// Reads up to `len` bytes at `offset`.
    pub fn read_at<D: BlockDevice>(&self, offset: usize, len: usize, m: &mut FAT32Manager<D>) -> (r: Vec<u8>)
        requires
            old(m).wf(),
            self.slot_ok(old(m).root_sector as int, old(m).view().len() as int),
        ensures
            final(m).wf(),
            final(m).same_but_cache(old(m)),
            final(m).view() == old(m).view(),
            exists|e: ShortDirEntry|
                self.entry_in(old(m), e) && ({
                    let data = old(m).file_data(e.spec_first_cluster());
                    let stop = stop_at(offset as int, len as int, e.limit(data.len() as int));
                    r@ == if offset < stop {
                        data.subrange(offset as int, stop)
                    } else {
                        Seq::empty()
                    }
                }),
    {
        let e = self.get_entry(m);
        e.read_at(offset, len, m)
    }

    /// The whole contents of this directory (or file).
    pub fn all_bytes<D: BlockDevice>(&self, m: &mut FAT32Manager<D>) -> (r: Vec<u8>)
        requires
            old(m).wf(),
            self.slot_ok(old(m).root_sector as int, old(m).view().len() as int),
        ensures
            final(m).wf(),
            final(m).same_but_cache(old(m)),
            final(m).view() == old(m).view(),
            exists|e: ShortDirEntry|
                self.entry_in(old(m), e) && ({
                    let data = old(m).file_data(e.spec_first_cluster());
                    let stop = e.limit(data.len() as int);
                    r@ == if 0 < stop {
                        data.subrange(0, stop)
                    } else {
                        Seq::empty()
                    }
                }),
    {
        let e = self.get_entry(m);
        e.read_at(0, u32::MAX as usize, m)
    }

    /// The names and attributes of the entries of this directory, in the
    /// order stored.
    pub fn ls<D: BlockDevice>(&self, m: &mut FAT32Manager<D>) -> (r: Vec<(Vec<u8>, u8)>)
        requires
            old(m).wf(),
            self.slot_ok(old(m).root_sector as int, old(m).view().len() as int),
        ensures
            final(m).wf(),
            final(m).same_but_cache(old(m)),
            final(m).view() == old(m).view(),
            exists|b: Seq<u8>|
                {
                    &&& r@.len() == crate::dir::entries(b).len()
                    &&& forall|k: int|
                        0 <= k < r@.len() ==> (#[trigger] r@[k]).0@ == crate::dir::entries(b)[k].0
                            && r@[k].1 == crate::dir::slot(b, crate::dir::entries(b)[k].1)[11]
                    &&& self.dir_bytes(old(m), b)
                },
    {
        let b = self.all_bytes(m);
        proof {
            assert(self.dir_bytes(old(m), b@));
        }
        let items = crate::dir::parse_dir(b.as_slice());
        let mut out: Vec<(Vec<u8>, u8)> = Vec::new();
        let mut k: usize = 0;
        while k < items.len()
            invariant
                k <= items@.len(),
                items@.len() == crate::dir::entries(b@).len(),
                forall|q: int| 0 <= q < items@.len() ==> #[trigger] items@[q].spec_view() == crate::dir::entries(b@)[q],
                forall|q: int| 0 <= q < items@.len() ==> (#[trigger] items@[q]).entry.parsed_from(crate::dir::slot(b@, items@[q].slot as int)),
                out@.len() == k,
                forall|q: int|
                    0 <= q < k ==> (#[trigger] out@[q]).0@ == crate::dir::entries(b@)[q].0
                        && out@[q].1 == crate::dir::slot(b@, crate::dir::entries(b@)[q].1)[11],
            decreases items@.len() - k,
        {
            let name = vstd::slice::slice_to_vec(items[k].name.as_slice());
            proof {
                let it = items@[k as int];
                assert(it.spec_view() == crate::dir::entries(b@)[k as int]);
                assert(it.entry.attribute == crate::dir::slot(b@, it.slot as int)[11]);
                assert(it.name@ == crate::dir::entries(b@)[k as int].0);
            }
            out.push((name, items[k].entry.attribute));
            k += 1;
        }
        out
    }
}

} // verus!

verus! {

/// `f` is entry `k` of the directory whose entry is `e` and whose bytes
/// are `b`: the first entry named `name`, its slots located through the
/// directory's chain.
pub open spec fn child_at_index<D: BlockDevice>(
    m: &FAT32Manager<D>,
    e: ShortDirEntry,
    b: Seq<u8>,
    k: int,
    name: Seq<u8>,
    f: &VFile,
) -> bool {
    let es = crate::dir::entries(b);
    let ch = m.good_chain(e.spec_first_cluster());
    let root = m.root_sector as int;
    let spc = m.sectors_per_cluster as int;
    &&& 0 <= k < es.len()
    &&& es[k].0 == name
    &&& forall|q: int| 0 <= q < k ==> #[trigger] es[q].0 != name
    &&& f.name@ == name
    &&& !f.is_root
    &&& f.attribute == crate::dir::slot(b, es[k].1)[11]
    &&& f.short_sector == sector_of(root, spc, ch, 32 * es[k].1)
    &&& f.short_offset == (32 * es[k].1) % 512
    &&& f.long_pos@.len() == es[k].2.len()
    &&& forall|t: int|
        0 <= t < f.long_pos@.len() ==> (#[trigger] f.long_pos@[t]).0 == sector_of(root, spc, ch, 32 * es[k].2[t])
            && f.long_pos@[t].1 == (32 * es[k].2[t]) % 512
}

/// `f` is the entry named `name` in directory `dir`: the first of that
/// name among the directory's entries.
pub open spec fn child_of<D: BlockDevice>(m: &FAT32Manager<D>, dir: &VFile, name: Seq<u8>, f: &VFile) -> bool {
    &&& dir.attribute & crate::layout::ATTRIBUTE_DIRECTORY != 0
    &&& exists|e: ShortDirEntry, b: Seq<u8>, k: int|
        #![trigger dir.dir_data(m, e, b), child_at_index(m, e, b, k, name, f)]
        dir.dir_data(m, e, b) && child_at_index(m, e, b, k, name, f)
}

/// `dir` is not a directory, or holds no entry named `name`.
pub open spec fn no_child<D: BlockDevice>(m: &FAT32Manager<D>, dir: &VFile, name: Seq<u8>) -> bool {
    dir.attribute & crate::layout::ATTRIBUTE_DIRECTORY == 0 || exists|e: ShortDirEntry, b: Seq<u8>|
        #![trigger dir.dir_data(m, e, b)]
        dir.dir_data(m, e, b) && forall|k: int|
            0 <= k < crate::dir::entries(b).len() ==> #[trigger] crate::dir::entries(b)[k].0 != name
}

/// Two handles of one entry.
pub open spec fn same_file(a: &VFile, b: &VFile) -> bool {
    &&& a.name@ == b.name@
    &&& a.short_sector == b.short_sector
    &&& a.short_offset == b.short_offset
    &&& a.long_pos@ == b.long_pos@
    &&& a.attribute == b.attribute
    &&& a.is_root == b.is_root
}

/// Whether two byte strings are equal.
pub fn bytes_eq(a: &[u8], b: &[u8]) -> (r: bool)
    ensures
        r == (a@ == b@),
{
    if a.len() != b.len() {
        return false;
    }
    let mut i: usize = 0;
    while i < a.len()
        invariant
            a@.len() == b@.len(),
            i <= a@.len(),
            forall|j: int| 0 <= j < i ==> a@[j] == b@[j],
        decreases a@.len() - i,
    {
        if a[i] != b[i] {
            return false;
        }
        i += 1;
    }
    assert(a@ =~= b@);
    true
}

impl<D: BlockDevice> FAT32Manager<D> {
    /// Sector and byte offset of byte `o` of the data of the chain `cs`.
    pub fn position_of(&self, cs: &Vec<u32>, o: usize) -> (r: (usize, usize))
        requires
            self.wf(),
            forall|j: int| 0 <= j < cs@.len() ==> 2 <= #[trigger] cs@[j] < self.fat.n_entry,
            o < cs@.len() * self.sectors_per_cluster * 512,
        ensures
            r.0 == sector_of(self.root_sector as int, self.sectors_per_cluster as int, cs@, o as int),
            self.root_sector <= r.0 < self.view().len(),
            r.1 == o % 512,
    {
        let spc = self.sectors_per_cluster as usize;
        let bpc = self.bytes_per_cluster as usize;
        let ci = o / bpc;
        let within = o % bpc;
        proof {
            assert(ci < cs@.len()) by (nonlinear_arith)
                requires
                    ci == o as int / bpc as int,
                    o < cs@.len() * spc * 512,
                    bpc == spc * 512,
                    spc >= 1,
            ;
            assert(within / 512 < spc) by (nonlinear_arith)
                requires
                    within == o as int % bpc as int,
                    bpc == spc * 512,
                    spc >= 1,
            ;
        }
        proof {
            self.cache.lemma_wf();
            assert(self.root_sector <= self.root_sector + (cs@[ci as int] - 2) * spc) by (nonlinear_arith)
                requires
                    cs@[ci as int] >= 2,
                    spc >= 1,
            ;
        }
        let sec = self.first_sector_of_cluster(cs[ci]) + within / BLOCK_SZ;
        (sec, o % BLOCK_SZ)
    }
}

impl VFile {
    /// The entries of this directory as they are on disk: the bytes `b`
    /// that `all_bytes` returns.
    pub open spec fn dir_bytes<D: BlockDevice>(&self, m: &FAT32Manager<D>, b: Seq<u8>) -> bool {
        exists|e: ShortDirEntry|
            self.entry_in(m, e) && b == ({
                let data = m.file_data(e.spec_first_cluster());
                let stop = e.limit(data.len() as int);
                if 0 < stop {
                    data.subrange(0, stop)
                } else {
                    Seq::empty()
                }
            })
    }

    /// `e` is this file's entry in `m` and `b` the bytes of its data.
    pub open spec fn dir_data<D: BlockDevice>(&self, m: &FAT32Manager<D>, e: ShortDirEntry, b: Seq<u8>) -> bool {
        self.entry_in(m, e) && b == ({
            let data = m.file_data(e.spec_first_cluster());
            let stop = e.limit(data.len() as int);
            if 0 < stop {
                data.subrange(0, stop)
            } else {
                Seq::empty()
            }
        })
    }

    /// Directory bytes are the same in two states that differ in the cache
    /// alone and read the same.
    pub proof fn lemma_dir_bytes_same<D: BlockDevice>(&self, m1: &FAT32Manager<D>, m2: &FAT32Manager<D>, b: Seq<u8>)
        requires
            m1.same_but_cache(m2),
            m1.view() == m2.view(),
            self.dir_bytes(m1, b),
        ensures
            self.dir_bytes(m2, b),
    {
        let e = choose|e: ShortDirEntry|
            self.entry_in(m1, e) && b == ({
                let data = m1.file_data(e.spec_first_cluster());
                let stop = e.limit(data.len() as int);
                if 0 < stop {
                    data.subrange(0, stop)
                } else {
                    Seq::empty()
                }
            });
        assert(self.entry_in(m2, e));
        assert(m1.good_chain(e.spec_first_cluster()) == m2.good_chain(e.spec_first_cluster()));
        assert(m1.file_data(e.spec_first_cluster()) == m2.file_data(e.spec_first_cluster()));
    }

    /// The entry named `name` in this directory, with the positions of its
    /// slots: the first entry of that name. `None` when this is not a
    /// directory or holds no entry of that name.
    pub fn find_vfile_byname<D: BlockDevice>(&self, name: &[u8], m: &mut FAT32Manager<D>) -> (r: Option<VFile>)
        requires
            old(m).wf(),
            self.slot_ok(old(m).root_sector as int, old(m).view().len() as int),
        ensures
            final(m).wf(),
            final(m).same_but_cache(old(m)),
            final(m).view() == old(m).view(),
            self.attribute & crate::layout::ATTRIBUTE_DIRECTORY == 0 ==> r is None,
            self.attribute & crate::layout::ATTRIBUTE_DIRECTORY != 0 ==> exists|b: Seq<u8>|
                {
                    &&& self.dir_bytes(old(m), b)
                    &&& (r is None <==> forall|k: int|
                        0 <= k < crate::dir::entries(b).len() ==> #[trigger] crate::dir::entries(b)[k].0 != name@)
                },
            r matches Some(f) ==> {
                &&& f.name@ == name@
                &&& !f.is_root
                &&& f.slot_ok(old(m).root_sector as int, old(m).view().len() as int)
                &&& forall|j: int| 0 <= j < f.long_pos@.len() ==> old(m).root_sector <= (#[trigger] f.long_pos@[j]).0 < old(m).view().len() && f.long_pos@[j].1 + 32 <= 512
                &&& child_of(old(m), self, name@, &f)
            },
            r is None ==> no_child(old(m), self, name@),
    {
        if !self.is_dir() {
            return None;
        }
        let e = self.get_entry(m);
        let first = e.first_cluster();
        let b = e.read_at(0, u32::MAX as usize, m);
        let cs = m.good_clusters(first);
        let ghost data = m.file_data(first);
        proof {
            assert(self.dir_bytes(old(m), b@));
            assert(self.dir_data(old(m), e, b@));
            crate::dir::lemma_scan_bounds(b@, 0, Seq::empty());
        }
        let items = crate::dir::parse_dir(b.as_slice());
        let mut k: usize = 0;
        while k < items.len()
            invariant
                m.wf(),
                m.same_but_cache(old(m)),
                m.view() == old(m).view(),
                cs@ == m.good_chain(first),
                self.dir_bytes(old(m), b@),
                self.dir_data(old(m), e, b@),
                first == e.spec_first_cluster(),
                forall|q: int|
                    0 <= q < items@.len() ==> (#[trigger] items@[q]).entry.parsed_from(crate::dir::slot(b@, items@[q].slot as int)),
                self.attribute & crate::layout::ATTRIBUTE_DIRECTORY != 0,
                forall|q: int| 0 <= q < cs@.len() ==> 2 <= #[trigger] cs@[q] < m.fat.n_entry,
                data == m.file_data(first),
                b@.len() <= data.len(),
                k <= items@.len(),
                items@.len() == crate::dir::entries(b@).len(),
                forall|q: int| 0 <= q < items@.len() ==> #[trigger] items@[q].spec_view() == crate::dir::entries(b@)[q],
                forall|q: int| 0 <= q < k ==> crate::dir::entries(b@)[q].0 != name@,
                forall|q: int|
                    0 <= q < crate::dir::entries(b@).len() ==> {
                        &&& 0 <= (#[trigger] crate::dir::entries(b@)[q]).1 < b@.len() / 32
                        &&& forall|t: int|
                            0 <= t < crate::dir::entries(b@)[q].2.len() ==> 0 <= #[trigger] crate::dir::entries(b@)[q].2[t]
                                < crate::dir::entries(b@)[q].1
                    },
            decreases items@.len() - k,
        {
            if bytes_eq(items[k].name.as_slice(), name) {
                proof {
                    let it = items@[k as int];
                    assert(it.spec_view() == crate::dir::entries(b@)[k as int]);
                    assert(it.slot < b@.len() / 32);
                    assert(forall|t: int| 0 <= t < it.long_slots@.len() ==> #[trigger] it.long_slots@[t] < it.slot) by {
                        assert forall|t: int| 0 <= t < it.long_slots@.len() implies #[trigger] it.long_slots@[t] < it.slot by {
                            assert(it.spec_view().2[t] == it.long_slots@[t] as int);
                        }
                    }
                }
                let f = self.child_at(&items[k], &cs, b.len(), m);
                proof {
                    let it = items@[k as int];
                    let es = crate::dir::entries(b@);
                    assert(self.dir_data(old(m), e, b@));
                    assert(es[k as int] == it.spec_view());
                    assert(it.entry.parsed_from(crate::dir::slot(b@, it.slot as int)));
                    assert(f.attribute == crate::dir::slot(b@, es[k as int].1)[11]);
                    assert forall|t: int| 0 <= t < f.long_pos@.len() implies (#[trigger] f.long_pos@[t]).0 == sector_of(
                        old(m).root_sector as int, old(m).sectors_per_cluster as int, old(m).good_chain(e.spec_first_cluster()), 32 * es[k as int].2[t])
                        && f.long_pos@[t].1 == (32 * es[k as int].2[t]) % 512 by {
                        assert(es[k as int].2[t] == it.long_slots@[t] as int);
                    }
                    assert(child_at_index(old(m), e, b@, k as int, name@, &f));
                    assert(child_of(old(m), self, name@, &f));
                    assert(crate::dir::entries(b@)[k as int].0 == name@);
                    assert(!(forall|q: int| 0 <= q < crate::dir::entries(b@).len() ==> #[trigger] crate::dir::entries(b@)[q].0 != name@));
                    assert(self.dir_bytes(old(m), b@));
                }
                return Some(f);
            }
            proof {
                assert(items@[k as int].spec_view() == crate::dir::entries(b@)[k as int]);
                assert(items@[k as int].name@ != name@);
            }
            k += 1;
        }
        proof {
            assert(self.dir_bytes(old(m), b@));
            assert(self.dir_data(old(m), e, b@));
            assert(no_child(old(m), self, name@));
        }
        None
    }

    /// The file of directory item `it`, its slots located through `cs`.
    fn child_at<D: BlockDevice>(&self, it: &crate::dir::DirItem, cs: &Vec<u32>, dir_len: usize, m: &mut FAT32Manager<D>) -> (f: VFile)
        requires
            old(m).wf(),
            32 * it.slot + 32 <= dir_len,
            forall|q: int| 0 <= q < cs@.len() ==> 2 <= #[trigger] cs@[q] < old(m).fat.n_entry,
            32 * it.slot + 32 <= cs@.len() * old(m).sectors_per_cluster * 512,
            forall|t: int| 0 <= t < it.long_slots@.len() ==> #[trigger] it.long_slots@[t] < it.slot,
        ensures
            final(m).wf(),
            final(m).same_but_cache(old(m)),
            final(m).view() == old(m).view(),
            f.name@ == it.name@,
            !f.is_root,
            f.slot_ok(old(m).root_sector as int, old(m).view().len() as int),
            forall|j: int| 0 <= j < f.long_pos@.len() ==> old(m).root_sector <= (#[trigger] f.long_pos@[j]).0 < old(m).view().len() && f.long_pos@[j].1 + 32 <= 512,
            f.attribute == it.entry.attribute,
            f.short_sector == sector_of(old(m).root_sector as int, old(m).sectors_per_cluster as int, cs@, 32 * it.slot),
            f.short_offset == (32 * it.slot) % 512,
            f.long_pos@.len() == it.long_slots@.len(),
            forall|t: int|
                0 <= t < f.long_pos@.len() ==> (#[trigger] f.long_pos@[t]).0 == sector_of(
                    old(m).root_sector as int,
                    old(m).sectors_per_cluster as int,
                    cs@,
                    32 * it.long_slots@[t],
                ) && f.long_pos@[t].1 == (32 * it.long_slots@[t]) % 512,
    {
        proof {
            assert((32 * it.slot) % 512 + 32 <= 512) by (nonlinear_arith)
                requires
                    it.slot >= 0,
            ;
        }
        let (sec, off) = m.position_of(cs, 32 * it.slot);
        let mut long_pos: Vec<(usize, usize)> = Vec::new();
        let mut j: usize = 0;
        while j < it.long_slots.len()
            invariant
                m.wf(),
                j <= it.long_slots@.len(),
                forall|q: int| 0 <= q < cs@.len() ==> 2 <= #[trigger] cs@[q] < m.fat.n_entry,
                32 * it.slot + 32 <= cs@.len() * m.sectors_per_cluster * 512,
                32 * it.slot + 32 <= dir_len,
                forall|t: int| 0 <= t < it.long_slots@.len() ==> #[trigger] it.long_slots@[t] < it.slot,
                long_pos@.len() == j,
                forall|q: int| 0 <= q < long_pos@.len() ==> m.root_sector <= (#[trigger] long_pos@[q]).0 < m.view().len() && long_pos@[q].1 + 32 <= 512,
                forall|t: int|
                    0 <= t < j ==> (#[trigger] long_pos@[t]).0 == sector_of(
                        m.root_sector as int,
                        m.sectors_per_cluster as int,
                        cs@,
                        32 * it.long_slots@[t],
                    ) && long_pos@[t].1 == (32 * it.long_slots@[t]) % 512,
                m.root_sector == old(m).root_sector,
                m.sectors_per_cluster == old(m).sectors_per_cluster,
                m.view() == old(m).view(),
                m.same_but_cache(old(m)),
            decreases it.long_slots@.len() - j,
        {
            let s = it.long_slots[j];
            proof {
                assert(s < it.slot);
                assert((32 * s) % 512 + 32 <= 512) by (nonlinear_arith)
                    requires
                        s >= 0,
                ;
            }
            let p = m.position_of(cs, 32 * s);
            long_pos.push(p);
            j += 1;
        }
        VFile {
            name: vstd::slice::slice_to_vec(it.name.as_slice()),
            short_sector: sec,
            short_offset: off,
            long_pos,
            attribute: it.entry.attribute,
            is_root: false,
        }
    }
}

/// Whether every cluster of `cs` lies in the table.
fn forall_valid<D: BlockDevice>(cs: &Vec<u32>, m: &FAT32Manager<D>) -> (r: bool)
    ensures
        r == forall|j: int| 0 <= j < cs@.len() ==> 2 <= #[trigger] cs@[j] < m.fat.n_entry,
{
    let mut i: usize = 0;
    while i < cs.len()
        invariant
            i <= cs@.len(),
            forall|j: int| 0 <= j < i ==> 2 <= #[trigger] cs@[j] < m.fat.n_entry,
        decreases cs@.len() - i,
    {
        if cs[i] < 2 || cs[i] >= m.fat.n_entry {
            return false;
        }
        i += 1;
    }
    true
}

} // verus!

verus! {

/// Clusters that `size` bytes take.
pub open spec fn clusters_for<D: BlockDevice>(m: &FAT32Manager<D>, size: u32) -> int {
    (size as int + m.bytes_per_cluster - 1) / m.bytes_per_cluster as int
}

/// Clusters that growing entry `e` to `new_size` adds: all it needs when it
/// has no cluster yet, else what the new size needs beyond the old.
pub open spec fn grow_need<D: BlockDevice>(m: &FAT32Manager<D>, e: ShortDirEntry, new_size: u32) -> int {
    if e.spec_first_cluster() == 0 {
        clusters_for(m, new_size)
    } else {
        clusters_for(m, new_size) - clusters_for(m, e.size)
    }
}

/// The chain from `first` ends inside the table, on an end-of-chain entry.
pub open spec fn tail_ok<D: BlockDevice>(m: &FAT32Manager<D>, first: u32) -> bool {
    let last = m.chain(first).last();
    &&& 2 <= last < m.fat.n_entry
    &&& m.fat.next_of(m.view(), last as int) >= END_CLUSTER
}

/// What growing entry `e0` to `new_size` leaves: the same entry where the
/// size is not larger or it is a directory; else the new size, a first
/// cluster, and the same name and attribute.
pub open spec fn grow_result(e0: ShortDirEntry, e1: ShortDirEntry, new_size: u32) -> bool {
    &&& (new_size <= e0.size || e0.attribute & crate::layout::ATTRIBUTE_DIRECTORY != 0) ==> e1 == e0
    &&& (new_size > e0.size && e0.attribute & crate::layout::ATTRIBUTE_DIRECTORY == 0) ==> {
        &&& e1.size == new_size
        &&& e1.spec_first_cluster() != 0
        &&& e1.name == e0.name
        &&& e1.extension == e0.extension
        &&& e1.attribute == e0.attribute
    }
}

impl VFile {
    /// Writes `e` back to this file's short slot; the root's entry is kept
    /// in memory instead.
    fn put_entry<D: BlockDevice>(&self, e: &ShortDirEntry, m: &mut FAT32Manager<D>)
        requires
            old(m).wf(),
            !self.is_root,
            self.slot_ok(old(m).root_sector as int, old(m).view().len() as int),
        ensures
            final(m).wf(),
            final(m).same_but_cache(old(m)),
            final(m).cache.same_shape(&old(m).cache),
            final(m).fsinfo == old(m).fsinfo,
            final(m).fat == old(m).fat,
            final(m).root_sector == old(m).root_sector,
            final(m).view().len() == old(m).view().len(),
            final(m).same_tables(old(m).view(), final(m).view()),
            final(m).view()[old(m).fsinfo.sector_num as int] == old(m).view()[old(m).fsinfo.sector_num as int],
            self.entry_in(final(m), *e),
    {
        proof {
            m.cache.lemma_wf();
        }
        let ghost before = m.view();
        let bytes = e.as_bytes();
        m.cache.write(self.short_sector, self.short_offset, bytes.as_slice(), Pool::Info);
        proof {
            let after = m.view();
            assert forall|t: int| 0 <= t < after.len() && t != self.short_sector implies after[t] == before[t] by {}
            m.lemma_outside_tables(before, after, self.short_sector as int);
            let s = after[self.short_sector as int].subrange(self.short_offset as int, self.short_offset + 32);
            assert(s =~= e.spec_bytes());
            crate::layout::lemma_short_parse(*e);
        }
    }

    /// Grows this file to `new_size` bytes: allocates the clusters the new
    /// size needs, chains them after the last one (or makes them the first),
    /// and records the size. Nothing changes when `new_size` is not larger.
    pub fn grow_to<D: BlockDevice>(&self, new_size: u32, m: &mut FAT32Manager<D>) -> (r: Result<(), FsError>)
        requires
            old(m).wf(),
            self.slot_ok(old(m).root_sector as int, old(m).view().len() as int),
        ensures
            final(m).wf(),
            final(m).fat == old(m).fat,
            final(m).root_sector == old(m).root_sector,
            final(m).view().len() == old(m).view().len(),
            r is Ok ==> exists|e0: ShortDirEntry, e1: ShortDirEntry|
                #![trigger self.entry_in(old(m), e0), self.entry_in(final(m), e1)]
                self.entry_in(old(m), e0) && self.entry_in(final(m), e1) && grow_result(e0, e1, new_size) && (
                new_size > e0.size && e0.attribute & crate::layout::ATTRIBUTE_DIRECTORY == 0 && e0.spec_first_cluster()
                    == 0 ==> final(m).good_chain(e1.spec_first_cluster()).len() == clusters_for(old(m), new_size)),
            exists|e0: ShortDirEntry|
                #![trigger self.entry_in(old(m), e0)]
                self.entry_in(old(m), e0) && {
                    let need = grow_need(old(m), e0, new_size);
                    let grows = new_size > e0.size && e0.attribute & crate::layout::ATTRIBUTE_DIRECTORY == 0;
                    let first = e0.spec_first_cluster();
                    &&& (r == Err::<(), FsError>(FsError::Corrupt) <==> grows && need > 0 && first != 0 && !tail_ok(
                        old(m),
                        first,
                    ))
                    &&& (r == Err::<(), FsError>(FsError::NoSpace) <==> grows && need > 0 && (first == 0 || tail_ok(
                        old(m),
                        first,
                    )) && !old(m).can_alloc(need as u32))
                    &&& r is Ok && grows ==> final(m).free_count() == old(m).free_count() - need
                },
            r is Err ==> r == Err::<(), FsError>(FsError::NoSpace) || r == Err::<(), FsError>(FsError::Corrupt),
    {
        let mut e = self.get_entry(m);
        if new_size <= e.size || e.is_dir() {
            proof {
                assert(self.entry_in(old(m), e));
                assert(self.entry_in(m, e));
                assert(grow_result(e, e, new_size));
            }
            return Ok(());
        }
        proof {
            if self.is_root {
                let a = e.attribute;
                assert(a & 0x10u8 != 0) by (bit_vector)
                    requires
                        a == 0x10u8,
                ;
            }
        }
        let ghost e0 = e;
        let old_clusters = m.size_to_clusters(e.size);
        let new_clusters = m.size_to_clusters(new_size);
        let first = e.first_cluster();
        proof {
            assert(old_clusters <= new_clusters) by (nonlinear_arith)
                requires
                    old_clusters == (e.size as int + m.bytes_per_cluster - 1) / m.bytes_per_cluster as int,
                    new_clusters == (new_size as int + m.bytes_per_cluster - 1) / m.bytes_per_cluster as int,
                    e.size < new_size,
                    m.bytes_per_cluster > 0,
            ;
            assert(new_clusters >= 1) by (nonlinear_arith)
                requires
                    new_clusters == (new_size as int + m.bytes_per_cluster - 1) / m.bytes_per_cluster as int,
                    new_size >= 1,
                    m.bytes_per_cluster > 0,
            ;
        }
        let needed = if first == 0 {
            new_clusters
        } else {
            new_clusters - old_clusters
        };
        let ghost m0 = *m;
        if needed > 0 {
            if first == 0 {
                match m.alloc_cluster(needed) {
                    Some(c) => {
                        e.set_first_cluster(c);
                        proof {
                            assert(m.chain(c)[0] == c);
                            assert(c > 0);
                            let ch = m.chain(c);
                            assert forall|j: int| 0 <= j < ch.len() implies 2 <= #[trigger] ch[j] < m.fat.n_entry by {}
                            lemma_valid_len(ch, m.fat.n_entry as int, ch.len() as int);
                            assert(ch.take(ch.len() as int) =~= ch);
                            assert(m.good_chain(c).len() == needed);
                        }
                    },
                    None => {
                        return Err(FsError::NoSpace);
                    },
                }
            } else {
                proof {
                    m.cache.lemma_wf();
                }
                let last = m.fat.final_cluster(first, &mut m.cache);
                if last < 2 || last >= m.fat.n_entry {
                    return Err(FsError::Corrupt);
                }
                proof {
                    m.cache.lemma_wf();
                }
                let after_last = m.fat.get_next_cluster(last, &mut m.cache);
                if after_last < END_CLUSTER {
                    return Err(FsError::Corrupt);
                }
                match m.alloc_cluster(needed) {
                    Some(c) => {
                        proof {
                            m.cache.lemma_wf();
                            m.fat.lemma_set_next_frame(m.view(), last as int, c);
                        }
                        let ghost before_link = m.view();
                        m.fat.set_next_cluster(last, c, &mut m.cache);
                        proof {
                            assert(!m.fat.in_tables(m.fsinfo.sector_num as int));
                            assert(m.view()[m.fsinfo.sector_num as int] == before_link[m.fsinfo.sector_num as int]);
                        }
                        m.cache_write_back();
                    },
                    None => {
                        return Err(FsError::NoSpace);
                    },
                }
            }
        }
        proof {
            assert(needed > 0 ==> m.free_count() == m0.free_count() - needed);
        }
        e.set_size(new_size);
        let ghost e1 = e;
        assert(e1.spec_first_cluster() != 0);
        assert(self.slot_ok(m.root_sector as int, m.view().len() as int));
        let ghost m_before_put = *m;
        self.put_entry(&e, m);
        proof {
            assert(self.entry_in(old(m), e0));
            assert(self.entry_in(m, e1));
            assert(grow_result(e0, e1, new_size));
            m.fat.lemma_chain_same(m_before_put.view(), m.view(), e1.spec_first_cluster(), m.fat.n_entry as nat);
            assert(m.good_chain(e1.spec_first_cluster()) == m_before_put.good_chain(e1.spec_first_cluster()));
        }
        Ok(())
    }
}

} // verus!

verus! {

/// `.` or `..`.
pub open spec fn is_dot_name(n: Seq<u8>) -> bool {
    n == seq![0x2Eu8] || n == seq![0x2Eu8, 0x2Eu8]
}

/// What removing entry `e0` leaves in `m1`, coming from `m0`: the slot
/// marked deleted with no data, the clusters of its chain free in both
/// tables, and the free count raised by their number.
pub open spec fn removed<D: BlockDevice>(m0: &FAT32Manager<D>, m1: &FAT32Manager<D>, e0: ShortDirEntry, e1: ShortDirEntry) -> bool {
    let ch = m0.good_chain(e0.spec_first_cluster());
    &&& e1.name[0] == crate::layout::DELETED_MARK
    &&& e1.size == 0
    &&& e1.spec_first_cluster() == 0
    &&& forall|j: int|
        0 <= j < ch.len() ==> m1.fat.fat1(m1.view(), #[trigger] ch[j] as int) == crate::layout::FREE_CLUSTER
            && m1.fat.fat2(m1.view(), ch[j] as int) == crate::layout::FREE_CLUSTER
    &&& ch.len() > 0 ==> m1.free_count() as int == (m0.free_count() as int + ch.len()) % 0x1_0000_0000
}

impl VFile {
    /// Long slots that lie in the data region, 32 bytes in one sector each.
    pub open spec fn longs_ok(&self, root: int, nsec: int) -> bool {
        forall|j: int|
            0 <= j < self.long_pos@.len() ==> root <= (#[trigger] self.long_pos@[j]).0 < nsec
                && self.long_pos@[j].1 + 32 <= 512
    }

    /// Removes this entry: frees its clusters, marks its long slots and its
    /// short slot deleted. Fails with `NotEmpty` for a directory that holds
    /// entries other than `.` and `..`, and with `InvalidName` for the root.
    pub fn remove<D: BlockDevice>(&self, m: &mut FAT32Manager<D>) -> (r: Result<(), FsError>)
        requires
            old(m).wf(),
            self.slot_ok(old(m).root_sector as int, old(m).view().len() as int),
            self.longs_ok(old(m).root_sector as int, old(m).view().len() as int),
        ensures
            final(m).wf(),
            final(m).fat == old(m).fat,
            final(m).root_sector == old(m).root_sector,
            final(m).view().len() == old(m).view().len(),
            self.is_root <==> r == Err::<(), FsError>(FsError::InvalidName),
            !self.is_root && self.attribute & crate::layout::ATTRIBUTE_DIRECTORY == 0 ==> r is Ok,
            !self.is_root && self.attribute & crate::layout::ATTRIBUTE_DIRECTORY != 0 ==> exists|b: Seq<u8>|
                {
                    &&& self.dir_bytes(old(m), b)
                    &&& (r is Ok <==> forall|k: int|
                        0 <= k < crate::dir::entries(b).len() ==> is_dot_name(#[trigger] crate::dir::entries(b)[k].0))
                },
            r is Err ==> r == Err::<(), FsError>(FsError::NotEmpty) || r == Err::<(), FsError>(FsError::InvalidName),
            r is Err ==> final(m).view() == old(m).view(),
            r is Ok ==> exists|e0: ShortDirEntry, e1: ShortDirEntry|
                #![trigger self.entry_in(old(m), e0), self.entry_in(final(m), e1)]
                self.entry_in(old(m), e0) && self.entry_in(final(m), e1) && removed(old(m), final(m), e0, e1),
    {
        if self.is_root {
            return Err(FsError::InvalidName);
        }
        let ghost listed: Seq<u8> = Seq::empty();
        if self.is_dir() {
            let items = self.ls(m);
            proof {
                listed = choose|b: Seq<u8>|
                    {
                        &&& items@.len() == crate::dir::entries(b).len()
                        &&& forall|k: int|
                            0 <= k < items@.len() ==> (#[trigger] items@[k]).0@ == crate::dir::entries(b)[k].0
                                && items@[k].1 == crate::dir::slot(b, crate::dir::entries(b)[k].1)[11]
                        &&& self.dir_bytes(old(m), b)
                    };
            }
            let mut k: usize = 0;
            while k < items.len()
                invariant
                    m.wf(),
                    m.same_but_cache(old(m)),
                    m.view() == old(m).view(),
                    k <= items@.len(),
                    !self.is_root,
                    self.attribute & crate::layout::ATTRIBUTE_DIRECTORY != 0,
                    self.dir_bytes(old(m), listed),
                    items@.len() == crate::dir::entries(listed).len(),
                    forall|q: int| 0 <= q < items@.len() ==> (#[trigger] items@[q]).0@ == crate::dir::entries(listed)[q].0,
                    forall|q: int| 0 <= q < k ==> is_dot_name(#[trigger] crate::dir::entries(listed)[q].0),
                decreases items@.len() - k,
            {
                let n = &items[k].0;
                let dot = n.len() == 1 && n[0] == 0x2E;
                let dotdot = n.len() == 2 && n[0] == 0x2E && n[1] == 0x2E;
                proof {
                    assert(items@[k as int].0@ == crate::dir::entries(listed)[k as int].0);
                    if dot {
                        assert(n@ =~= seq![0x2Eu8]);
                    }
                    if dotdot {
                        assert(n@ =~= seq![0x2Eu8, 0x2Eu8]);
                    }
                    if n@ == seq![0x2Eu8] {
                        assert(dot);
                    }
                    if n@ == seq![0x2Eu8, 0x2Eu8] {
                        assert(dotdot);
                    }
                }
                if !dot && !dotdot {
                    proof {
                        assert(!is_dot_name(crate::dir::entries(listed)[k as int].0));
                    }
                    return Err(FsError::NotEmpty);
                }
                k += 1;
            }
        }
        let e = self.get_entry(m);
        let ghost e0 = e;
        let ghost m0 = *m;
        proof {
            assert(self.entry_in(old(m), e0));
        }
        let first = e.first_cluster();
        let cs = m.good_clusters(first);
        let ghost ch = cs@;
        if cs.len() > 0 {
            m.dealloc_cluster(cs);
        }
        let ghost m1 = *m;
        proof {
            assert(ch.len() > 0 ==> m1.free_count() as int == (m0.free_count() as int + ch.len()) % 0x1_0000_0000);
        }
        let mark: [u8; 1] = [crate::layout::DELETED_MARK];
        let mut j: usize = 0;
        while j < self.long_pos.len()
            invariant
                m.wf(),
                m.cache.same_shape(&m1.cache),
                m.fat == m1.fat,
                m.fsinfo == m1.fsinfo,
                m.root_sector == m1.root_sector,
                m1.root_sector == old(m).root_sector,
                m1.view().len() == old(m).view().len(),
                m.view().len() == m1.view().len(),
                m1.fsinfo.sector_num < m1.root_sector,
                m.same_tables(m1.view(), m.view()),
                m.view()[m.fsinfo.sector_num as int] == m1.view()[m.fsinfo.sector_num as int],
                self.longs_ok(old(m).root_sector as int, old(m).view().len() as int),
                mark@ == seq![crate::layout::DELETED_MARK],
                j <= self.long_pos@.len(),
            decreases self.long_pos@.len() - j,
        {
            let (sec, off) = self.long_pos[j];
            proof {
                m.cache.lemma_wf();
            }
            let ghost before = m.view();
            m.cache.write(sec, off, &mark, Pool::Info);
            proof {
                let after = m.view();
                assert forall|t: int| 0 <= t < after.len() && t != sec implies after[t] == before[t] by {}
                m.lemma_outside_tables(before, after, sec as int);
                assert(m.same_tables(m1.view(), after)) by {
                    assert forall|d: int| 0 <= d < m.fat.n_entry implies #[trigger] m.fat.fat1(m1.view(), d) == m.fat.fat1(after, d)
                        && m.fat.fat2(m1.view(), d) == m.fat.fat2(after, d) by {
                        assert(m.fat.fat1(m1.view(), d) == m.fat.fat1(before, d));
                        assert(m.fat.fat1(before, d) == m.fat.fat1(after, d));
                    }
                }
            }
            j += 1;
        }
        let mut d = e;
        d.delete();
        let ghost m2 = *m;
        self.put_entry(&d, m);
        proof {
            let mf = *m;
            assert(mf.same_tables(m1.view(), mf.view())) by {
                assert forall|q: int| 0 <= q < mf.fat.n_entry implies #[trigger] mf.fat.fat1(m1.view(), q) == mf.fat.fat1(mf.view(), q)
                    && mf.fat.fat2(m1.view(), q) == mf.fat.fat2(mf.view(), q) by {
                    assert(mf.fat.fat1(m1.view(), q) == mf.fat.fat1(m2.view(), q));
                    assert(mf.fat.fat1(m2.view(), q) == mf.fat.fat1(mf.view(), q));
                }
            }
            assert forall|q: int| 0 <= q < ch.len() implies mf.fat.fat1(mf.view(), #[trigger] ch[q] as int) == crate::layout::FREE_CLUSTER
                && mf.fat.fat2(mf.view(), ch[q] as int) == crate::layout::FREE_CLUSTER by {
                assert(mf.fat.fat1(m1.view(), ch[q] as int) == crate::layout::FREE_CLUSTER);
                assert(mf.fat.fat1(m1.view(), ch[q] as int) == mf.fat.fat1(mf.view(), ch[q] as int));
            }
            assert(mf.free_count() == m1.free_count());
            assert(d.name[0] == crate::layout::DELETED_MARK);
            assert(removed(old(m), &mf, e0, d));
            assert(self.entry_in(&mf, d));
            if self.attribute & crate::layout::ATTRIBUTE_DIRECTORY != 0 {
                assert(self.dir_bytes(old(m), listed));
            }
        }
        Ok(())
    }
}

} // verus!

verus! {

/// Why creating `name` in directory `dir` (from state `m0` to `m`) can find
/// the volume inconsistent: the directory's first cluster or the tail of its
/// chain lies outside the table, or the slots were written (the volume
/// changed) and the name still does not read back.
pub open spec fn create_corrupt<D: BlockDevice>(m0: &FAT32Manager<D>, m: &FAT32Manager<D>, dir: &VFile, name: Seq<u8>) -> bool {
    (exists|e: ShortDirEntry|
        #![trigger dir.entry_in(m, e)]
        dir.entry_in(m, e) && (e.spec_first_cluster() < 2 || !tail_ok(m, e.spec_first_cluster()))) || (m.view()
        != m0.view() && exists|b: Seq<u8>|
        dir.dir_bytes(m, b) && forall|k: int|
            0 <= k < crate::dir::entries(b).len() ==> #[trigger] crate::dir::entries(b)[k].0 != name)
}

/// A name this driver accepts: not empty, no zero byte, no `/`.
pub open spec fn valid_name(n: Seq<u8>) -> bool {
    n.len() > 0 && forall|i: int| 0 <= i < n.len() ==> #[trigger] n[i] != 0 && n[i] != 0x2F
}

/// Longest name accepted.
pub const MAX_NAME_LEN: usize = 255;

fn check_name(name: &[u8]) -> (r: bool)
    ensures
        r == valid_name(name@),
{
    if name.len() == 0 {
        return false;
    }
    let mut i: usize = 0;
    while i < name.len()
        invariant
            i <= name@.len(),
            forall|j: int| 0 <= j < i ==> #[trigger] name@[j] != 0 && name@[j] != 0x2F,
        decreases name@.len() - i,
    {
        if name[i] == 0 || name[i] == 0x2F {
            return false;
        }
        i += 1;
    }
    true
}

/// The 11 bytes of the short name stored for `name`: its 8.3 form where
/// it fits one, else the `~1` form.
fn short_name_for(name: &[u8]) -> (r: Vec<u8>)
    ensures
        r@.len() == 11,
{
    let (base, ext) = crate::names::split_name_ext(name);
    if base.len() <= 8 && ext.len() <= 3 && base.len() + ext.len() + 1 >= name.len() {
        let (f, e) = crate::names::short_name_format(name);
        let mut r = vstd::slice::slice_to_vec(&f);
        let mut k: usize = 0;
        while k < 3
            invariant
                k <= 3,
                r@.len() == 8 + k,
            decreases 3 - k,
        {
            r.push(e[k]);
            k += 1;
        }
        r
    } else {
        crate::names::generate_short_name(name)
    }
}

impl VFile {
    /// The slots that record `name` with attribute `attribute`: its long
    /// slots, last part first, then the short slot.
    fn encode_slots(name: &[u8], short: &ShortDirEntry) -> (r: Option<Vec<u8>>)
        requires
            0 < name@.len() <= MAX_NAME_LEN,
        ensures
            r is Some,
            r matches Some(b) ==> b@.len() % 32 == 0 && 32 <= b@.len() <= 672 && b@[0] != 0 && b@[0]
                != crate::layout::DELETED_MARK,
    {
        let chk = short.checksum();
        let chunks = crate::names::long_name_split(name, true);
        let nl = chunks.len();
        proof {
            assert((name@.len() + 12) / 13 <= 20) by (nonlinear_arith)
                requires
                    name@.len() <= 255,
            ;
            assert((name@.len() + 12) / 13 >= 1) by (nonlinear_arith)
                requires
                    name@.len() >= 1,
            ;
        }
        if nl > 20 {
            return None;
        }
        let mut out: Vec<u8> = Vec::new();
        let mut j: usize = 0;
        while j < nl
            invariant
                j <= nl,
                nl == chunks@.len(),
                nl <= 20,
                1 <= nl,
                out@.len() == 32 * j,
                j > 0 ==> out@[0] != 0 && out@[0] != crate::layout::DELETED_MARK,
                0 < name@.len() <= MAX_NAME_LEN,
                chunks@.len() == crate::names::chunk_count(name@.len() as int),
                forall|i: int|
                    0 <= i < chunks@.len() ==> #[trigger] chunks@[i]@ == if i == chunks@.len() - 1 && crate::names::chunk(
                        name@,
                        i,
                    ).len() < crate::layout::LONG_NAME_LEN {
                        crate::names::chunk(name@, i).push(0)
                    } else {
                        crate::names::chunk(name@, i)
                    },
            decreases nl - j,
        {
            let c = &chunks[nl - 1 - j];
            proof {
                let i = (nl - 1 - j) as int;
                let n = name@.len() as int;
                assert(nl as int == (n + 12) / 13);
                if i < nl - 1 {
                    assert(13 * i + 13 < n) by (nonlinear_arith)
                        requires
                            i + 2 <= nl,
                            nl == (n + 12) / 13,
                    ;
                    assert(c@ == crate::names::chunk(name@, i));
                    assert(c@.len() == 13);
                } else {
                    assert(13 * i < n) by (nonlinear_arith)
                        requires
                            i + 1 == nl,
                            nl == (n + 12) / 13,
                            n > 0,
                    ;
                    let ch = crate::names::chunk(name@, i);
                    assert(ch.len() <= 13);
                    if ch.len() < 13 {
                        assert(c@ == ch.push(0));
                    } else {
                        assert(c@ == ch);
                    }
                }
            }
            let ok = c.len() >= 13 || (c.len() > 0 && c[c.len() - 1] == 0);
            if !ok {
                return None;
            }
            proof {
                if c@.len() < 13 {
                    assert(c@[c@.len() - 1] == 0);
                }
            }
            let mut l = crate::layout::LongDirEntry::empty();
            let order: u8 = if j == 0 {
                (nl - j) as u8 | 0x40
            } else {
                (nl - j) as u8
            };
            l.initialize(c.as_slice(), order, chk);
            let bytes = l.as_bytes();
            proof {
                if j == 0 {
                    let n8 = nl as u8;
                    assert(n8 | 0x40u8 != 0 && n8 | 0x40u8 != 0xE5u8) by (bit_vector)
                        requires
                            1 <= n8 <= 20,
                    ;
                    assert(bytes@[0] == order);
                }
            }
            let mut t: usize = 0;
            let ghost out0 = out@;
            while t < 32
                invariant
                    t <= 32,
                    bytes@.len() == 32,
                    out@.len() == 32 * j + t,
                    out0.len() == 32 * j,
                    forall|q: int| 0 <= q < out0.len() ==> out@[q] == out0[q],
                    j == 0 && t > 0 ==> out@[0] == bytes@[0],
                decreases 32 - t,
            {
                out.push(bytes[t]);
                t += 1;
            }
            j += 1;
        }
        let sb = short.as_bytes();
        let mut t: usize = 0;
        let ghost out0 = out@;
        while t < 32
            invariant
                t <= 32,
                sb@.len() == 32,
                out@.len() == 32 * nl + t,
                out0.len() == 32 * nl,
                nl >= 1,
                out0[0] != 0 && out0[0] != crate::layout::DELETED_MARK,
                forall|q: int| 0 <= q < out0.len() ==> out@[q] == out0[q],
            decreases 32 - t,
        {
            out.push(sb[t]);
            t += 1;
        }
        Some(out)
    }

    /// Makes the directory that starts at `dir_first` hold at least `slots`
    /// slots, chaining new clusters after its last one.
    fn grow_dir<D: BlockDevice>(&self, dir_first: u32, over: usize, m: &mut FAT32Manager<D>) -> (r: Result<(), FsError>)
        requires
            old(m).wf(),
            dir_first >= 2,
            0 < over <= 672,
        ensures
            final(m).wf(),
            final(m).fat == old(m).fat,
            final(m).fsinfo == old(m).fsinfo,
            final(m).vroot_dirent == old(m).vroot_dirent,
            final(m).root_sector == old(m).root_sector,
            final(m).sectors_per_cluster == old(m).sectors_per_cluster,
            final(m).view().len() == old(m).view().len(),
            r matches Err(e) ==> e == FsError::NoSpace || e == FsError::Corrupt,
            r == Err::<(), FsError>(FsError::NoSpace) ==> !final(m).can_alloc(2),
            r == Err::<(), FsError>(FsError::Corrupt) ==> !tail_ok(old(m), dir_first),
            r == Err::<(), FsError>(FsError::Corrupt) ==> final(m).view() == old(m).view() && final(m).same_but_cache(old(m)),
            r is Ok ==> final(m).free_count() < old(m).free_count(),
    {
        let bpc = m.bytes_per_cluster;
        proof {
            assert(bpc >= 512 && bpc <= 255 * 512) by (nonlinear_arith)
                requires
                    bpc == m.sectors_per_cluster * 512,
                    1 <= m.sectors_per_cluster <= 255,
            ;
        }
        let extra: u32 = ((over as u32) + bpc - 1) / bpc;
        proof {
            let o = over as int;
            let c = bpc as int;
            assert(1 <= (o + c - 1) / c <= 2) by (nonlinear_arith)
                requires
                    0 < o <= 672,
                    c >= 512,
            ;
        }
        proof {
            m.cache.lemma_wf();
        }
        let last = m.fat.final_cluster(dir_first, &mut m.cache);
        if last < 2 || last >= m.fat.n_entry {
            return Err(FsError::Corrupt);
        }
        proof {
            m.cache.lemma_wf();
        }
        let after_last = m.fat.get_next_cluster(last, &mut m.cache);
        if after_last < END_CLUSTER {
            return Err(FsError::Corrupt);
        }
        match m.alloc_cluster(extra) {
            Some(c) => {
                proof {
                    m.cache.lemma_wf();
                }
                let ghost before_link = m.view();
                proof {
                    m.fat.lemma_set_next_frame(before_link, last as int, c);
                }
                m.fat.set_next_cluster(last, c, &mut m.cache);
                proof {
                    assert(!m.fat.in_tables(m.fsinfo.sector_num as int));
                    assert(m.view()[m.fsinfo.sector_num as int] == before_link[m.fsinfo.sector_num as int]);
                }
                m.cache_write_back();
            },
            None => {
                return Err(FsError::NoSpace);
            },
        }
        Ok(())
    }

    /// A new directory's cluster, with `.` for itself and `..` for
    /// `parent`.
    fn new_dir_cluster<D: BlockDevice>(parent: u32, m: &mut FAT32Manager<D>) -> (r: Option<u32>)
        requires
            old(m).wf(),
        ensures
            final(m).wf(),
            final(m).fat == old(m).fat,
            final(m).fsinfo == old(m).fsinfo,
            final(m).vroot_dirent == old(m).vroot_dirent,
            final(m).root_sector == old(m).root_sector,
            final(m).sectors_per_cluster == old(m).sectors_per_cluster,
            final(m).view().len() == old(m).view().len(),
            r matches Some(c) ==> c != 0,
            r is None ==> !final(m).can_alloc(2),
            r is Some ==> final(m).free_count() < old(m).free_count(),
    {
        let c = match m.alloc_cluster(1) {
            Some(c) => c,
            None => {
                return None;
            },
        };
        proof {
            assert(m.chain(c)[0] == c);
            m.cache.lemma_wf();
        }
        if c < 2 || c >= m.fat.n_entry {
            return None;
        }
        let mut dot = ShortDirEntry::new(
            &[0x2E, 0x20, 0x20, 0x20, 0x20, 0x20, 0x20, 0x20],
            &[0x20, 0x20, 0x20],
            crate::layout::ATTRIBUTE_DIRECTORY,
        );
        dot.set_first_cluster(c);
        let mut dotdot = ShortDirEntry::new(
            &[0x2E, 0x2E, 0x20, 0x20, 0x20, 0x20, 0x20, 0x20],
            &[0x20, 0x20, 0x20],
            crate::layout::ATTRIBUTE_DIRECTORY,
        );
        dotdot.set_first_cluster(parent);
        let sec = m.first_sector_of_cluster(c);
        let ghost fc = m.free_count();
        proof {
            m.lemma_cluster_in_volume(c);
        }
        m.cache.write(sec, 0, dot.as_bytes().as_slice(), Pool::Info);
        proof {
            m.cache.lemma_wf();
        }
        m.cache.write(sec, 32, dotdot.as_bytes().as_slice(), Pool::Info);
        proof {
            assert(m.free_count() == fc);
        }
        Some(c)
    }

    /// Creates `name` in this directory with `attribute`: long slots and a
    /// short slot in the first run of deleted slots long enough, else from
    /// the terminator on, the directory growing by clusters where it must.
    /// A new directory gets a cluster with `.` and `..`; a new file gets
    /// no cluster until it is written. Returns the new entry, found again
    /// by its name.
    #[verifier::rlimit(100)]
    #[verifier::spinoff_prover]
    pub fn create<D: BlockDevice>(&self, name: &[u8], attribute: u8, m: &mut FAT32Manager<D>) -> (r: Result<VFile, FsError>)
        requires
            old(m).wf(),
            self.slot_ok(old(m).root_sector as int, old(m).view().len() as int),
        ensures
            final(m).wf(),
            final(m).fat == old(m).fat,
            final(m).root_sector == old(m).root_sector,
            final(m).view().len() == old(m).view().len(),
            self.attribute & crate::layout::ATTRIBUTE_DIRECTORY == 0 ==> r == Err::<VFile, FsError>(FsError::NotADirectory),
            self.attribute & crate::layout::ATTRIBUTE_DIRECTORY != 0 && !valid_name(name@) ==> r == Err::<VFile, FsError>(FsError::InvalidName),
            self.attribute & crate::layout::ATTRIBUTE_DIRECTORY != 0 && valid_name(name@) && name@.len() > MAX_NAME_LEN
                ==> r == Err::<VFile, FsError>(FsError::NameTooLong),
            r matches Ok(f) ==> {
                &&& f.name@ == name@
                &&& f.slot_ok(final(m).root_sector as int, final(m).view().len() as int)
                &&& f.longs_ok(final(m).root_sector as int, final(m).view().len() as int)
                &&& exists|b: Seq<u8>|
                    self.dir_bytes(final(m), b) && exists|k: int|
                        0 <= k < crate::dir::entries(b).len() && #[trigger] crate::dir::entries(b)[k].0 == name@
            },
            r matches Err(e) ==> e == FsError::NotADirectory || e == FsError::InvalidName || e
                == FsError::NameTooLong || e == FsError::NoSpace || e == FsError::Corrupt,
            r == Err::<VFile, FsError>(FsError::NoSpace) ==> !final(m).can_alloc(2),
            r == Err::<VFile, FsError>(FsError::Corrupt) ==> create_corrupt(old(m), final(m), self, name@),
            r == Err::<VFile, FsError>(FsError::NotADirectory) ==> self.attribute & crate::layout::ATTRIBUTE_DIRECTORY == 0,
            r == Err::<VFile, FsError>(FsError::InvalidName) ==> !valid_name(name@),
            r == Err::<VFile, FsError>(FsError::NameTooLong) ==> name@.len() > MAX_NAME_LEN,
    {
        if !self.is_dir() {
            return Err(FsError::NotADirectory);
        }
        if !check_name(name) {
            return Err(FsError::InvalidName);
        }
        if name.len() > MAX_NAME_LEN {
            return Err(FsError::NameTooLong);
        }
        let e = self.get_entry(m);
        let dir_first = e.first_cluster();
        if dir_first < 2 {
            proof {
                assert(self.entry_in(m, e));
            }
            return Err(FsError::Corrupt);
        }
        let ghost m_start = *m;
        let short11 = short_name_for(name);
        let mut short = ShortDirEntry::new(
            vstd::slice::slice_subrange(short11.as_slice(), 0, 8),
            vstd::slice::slice_subrange(short11.as_slice(), 8, 11),
            attribute,
        );
        let encoded = match Self::encode_slots(name, &short) {
            Some(b) => b,
            None => {
                return Err(FsError::Corrupt);
            },
        };
        let k = encoded.len() / 32;
        // find the first run of deleted slots, or the terminator
        let b = e.read_at(0, u32::MAX as usize, m);
        let blen = b.len();
        proof {
            assert(blen <= u32::MAX);
        }
        let cs = m.good_clusters(dir_first);
        let ghost v0 = m.view();
        let ghost data0 = chain_data(v0, m.root_sector as int, m.sectors_per_cluster as int, cs@);
        proof {
            assert(data0 == m_start.file_data(dir_first));
            assert(blen <= data0.len());
            assert(forall|x: int| 0 <= x < blen ==> b@[x] == data0[x]);
        }
        let n_slots = blen / 32;
        let mut run: usize = 0;
        let mut i: usize = 0;
        let mut start: usize = n_slots;
        let mut found = false;
        let mut done = false;
        while i < n_slots && !done
            invariant
                i <= n_slots,
                n_slots == b@.len() / 32,
                blen == b@.len(),
                blen <= u32::MAX,
                run <= i,
                k <= 21,
                start <= n_slots,
                found ==> start + k <= n_slots,
                found ==> done,
                k >= 1,
                found ==> b@[32 * start] == crate::layout::DELETED_MARK,
                done && !found ==> start < n_slots && b@[32 * start] == 0,
                !done ==> start == n_slots,
                !done ==> forall|j: int| i - run <= j < i ==> #[trigger] b@[32 * j] == crate::layout::DELETED_MARK,
            decreases n_slots - i,
        {
            proof {
                assert(32 * i < b@.len()) by (nonlinear_arith)
                    requires
                        i < n_slots,
                        n_slots == b@.len() / 32,
                ;
            }
            let f = b[32 * i];
            proof {
                assert(32 * i + 32 <= b@.len()) by (nonlinear_arith)
                    requires
                        i < n_slots,
                        n_slots == b@.len() / 32,
                ;
            }
            if f == crate::layout::DELETED_MARK {
                run += 1;
                if run == k {
                    start = i + 1 - k;
                    proof {
                        if start < i {
                            assert(b@[32 * start as int] == crate::layout::DELETED_MARK);
                        }
                    }
                    found = true;
                    done = true;
                }
            } else if f == 0 {
                start = i;
                done = true;
            } else {
                run = 0;
            }
            i += 1;
        }
        let ghost fc0 = m_start.free_count();
        let grew = !found && start + k > n_slots;
        if !found && start + k > n_slots {
            proof {
                assert(32 * (start + k) > blen) by (nonlinear_arith)
                    requires
                        start + k > n_slots,
                        n_slots == blen / 32,
                ;
                assert(32 * (start + k) - blen <= 672) by (nonlinear_arith)
                    requires
                        start <= n_slots,
                        n_slots == blen / 32,
                        k <= 21,
                ;
            }
            let over: u64 = 32 * (start as u64 + k as u64) - blen as u64;
            let ghost m_grow = *m;
            match self.grow_dir(dir_first, over as usize, m) {
                Ok(()) => {},
                Err(err) => {
                    proof {
                        if err == FsError::Corrupt {
                            assert(m_grow.view() == m_start.view());
                            assert(self.entry_in(m, e));
                            assert(!tail_ok(m, e.spec_first_cluster()));
                        }
                    }
                    return Err(err);
                },
            }
        }
        if attribute & crate::layout::ATTRIBUTE_DIRECTORY != 0 {
            let parent = if self.is_root {
                0
            } else {
                dir_first
            };
            match Self::new_dir_cluster(parent, m) {
                Some(c) => short.set_first_cluster(c),
                None => {
                    return Err(FsError::NoSpace);
                },
            }
        }
        let encoded = match Self::encode_slots(name, &short) {
            Some(b) => b,
            None => {
                return Err(FsError::Corrupt);
            },
        };
        proof {
            if grew || attribute & crate::layout::ATTRIBUTE_DIRECTORY != 0 {
                assert(m.free_count() < fc0 || !grew);
            }
        }
        let ghost fc1 = m.free_count();
        let e2 = self.get_entry(m);
        let _written = e2.write_at(32 * start, encoded.as_slice(), m);
        proof {
            assert(m.free_count() == fc1);
        }
        let ghost mark_pos: (int, int) = (0, 0);
        if !grew {
            proof {
                assert(start < n_slots);
                assert(32 * start + 32 <= blen) by (nonlinear_arith)
                    requires
                        start < n_slots,
                        n_slots == blen / 32,
                ;
                assert(b@[32 * start as int] == 0 || b@[32 * start as int] == crate::layout::DELETED_MARK);
            }
            let (sec, off) = m.position_of(&cs, 32 * start);
            let first_byte: [u8; 1] = [encoded[0]];
            proof {
                m.cache.lemma_wf();
                assert(off + 1 <= 512);
                mark_pos = (sec as int, off as int);
                assert(v0[sec as int][off as int] == data0[32 * start as int]);
            }
            m.cache.write(sec, off, &first_byte, Pool::Info);
            proof {
                assert(m.view()[sec as int][off as int] == encoded@[0]);
                assert(m.view()[sec as int][off as int] != v0[sec as int][off as int]);
            }
        }
        let ghost v_marked = m.view();
        m.cache_write_back();
        let ghost before_find = *m;
        match self.find_vfile_byname(name, m) {
            Some(f) => {
                proof {
                    let b = choose|b: Seq<u8>| {
                        &&& self.dir_bytes(&before_find, b)
                        &&& (false <==> forall|k: int|
                            0 <= k < crate::dir::entries(b).len() ==> #[trigger] crate::dir::entries(b)[k].0 != name@)
                    };
                    self.lemma_dir_bytes_same(&before_find, m, b);
                    assert(self.dir_bytes(m, b));
                    let k = choose|k: int| 0 <= k < crate::dir::entries(b).len() && !(crate::dir::entries(b)[k].0 != name@);
                    assert(crate::dir::entries(b)[k].0 == name@);
                }
                Ok(f)
            },
            None => {
                proof {
                    let b = choose|b: Seq<u8>| {
                        &&& self.dir_bytes(&before_find, b)
                        &&& (true <==> forall|k: int|
                            0 <= k < crate::dir::entries(b).len() ==> #[trigger] crate::dir::entries(b)[k].0 != name@)
                    };
                    self.lemma_dir_bytes_same(&before_find, m, b);
                    if grew {
                        assert(m.free_count() != m_start.free_count());
                    } else {
                        assert(m.view()[mark_pos.0][mark_pos.1] != v0[mark_pos.0][mark_pos.1]);
                    }
                    assert(m.view() != old(m).view());
                }
                Err(FsError::Corrupt)
            },
        }
    }
}

} // verus!

verus! {

/// A file has data exactly when it has a first cluster.
pub open spec fn size_matches_cluster(e: ShortDirEntry) -> bool {
    (e.size == 0) <==> (e.spec_first_cluster() == 0)
}

/// Growing keeps a file's size and first cluster in step: where the entry
/// had size 0 exactly when it had no cluster, so does the grown entry.
pub proof fn lemma_grow_keeps_size_rule(e0: ShortDirEntry, e1: ShortDirEntry, new_size: u32)
    requires
        grow_result(e0, e1, new_size),
        size_matches_cluster(e0),
    ensures
        size_matches_cluster(e1),
{
}

} // verus!

verus! {

impl VFile {
    /// A copy of this handle.
    pub fn duplicate(&self) -> (r: VFile)
        ensures
            same_file(&r, self),
    {
        let mut long_pos: Vec<(usize, usize)> = Vec::new();
        let mut i: usize = 0;
        while i < self.long_pos.len()
            invariant
                i <= self.long_pos@.len(),
                long_pos@ == self.long_pos@.take(i as int),
            decreases self.long_pos@.len() - i,
        {
            long_pos.push(self.long_pos[i]);
            assert(long_pos@ =~= self.long_pos@.take(i + 1));
            i += 1;
        }
        assert(long_pos@ =~= self.long_pos@);
        VFile {
            name: vstd::slice::slice_to_vec(self.name.as_slice()),
            short_sector: self.short_sector,
            short_offset: self.short_offset,
            long_pos,
            attribute: self.attribute,
            is_root: self.is_root,
        }
    }

    /// Resolves `path` from this directory: each `/`-separated component
    /// looked up in turn (empty components are skipped), as `resolves`
    /// states; `None` exactly where `fails` holds: a component is missing or
    /// a file stands where a directory is needed.
    pub fn find_by_path<D: BlockDevice>(&self, path: &[u8], m: &mut FAT32Manager<D>) -> (r: Option<VFile>)
        requires
            old(m).wf(),
            self.slot_ok(old(m).root_sector as int, old(m).view().len() as int),
            self.longs_ok(old(m).root_sector as int, old(m).view().len() as int),
        ensures
            final(m).wf(),
            final(m).same_but_cache(old(m)),
            final(m).view() == old(m).view(),
            r matches Some(f) ==> {
                &&& f.slot_ok(old(m).root_sector as int, old(m).view().len() as int)
                &&& f.longs_ok(old(m).root_sector as int, old(m).view().len() as int)
                &&& resolves(old(m), self, Seq::empty(), path@, &f)
            },
            r is None ==> fails(old(m), self, Seq::empty(), path@),
    {
        let mut cur: Option<VFile> = None;
        let mut comp: Vec<u8> = Vec::new();
        let mut i: usize = 0;
        proof {
            assert(path@.skip(0) =~= path@);
            assert(comp@ =~= Seq::<u8>::empty());
        }
        while i < path.len()
            invariant
                m.wf(),
                m.same_but_cache(old(m)),
                m.view() == old(m).view(),
                i <= path@.len(),
                pick(cur, *self).slot_ok(old(m).root_sector as int, old(m).view().len() as int),
                pick(cur, *self).longs_ok(old(m).root_sector as int, old(m).view().len() as int),
                forall|f: VFile|
                    #[trigger] resolves(old(m), &pick(cur, *self), comp@, path@.skip(i as int), &f) ==> resolves(
                        old(m),
                        self,
                        Seq::empty(),
                        path@,
                        &f,
                    ),
                fails(old(m), &pick(cur, *self), comp@, path@.skip(i as int)) ==> fails(old(m), self, Seq::empty(), path@),
            decreases path@.len() - i,
        {
            let c = path[i];
            let ghost rest = path@.skip(i as int);
            let ghost d = pick(cur, *self);
            let ghost comp0 = comp@;
            proof {
                assert(rest.drop_first() =~= path@.skip(i + 1));
                assert(rest[0] == c);
            }
            if c == 0x2F {
                if comp.len() > 0 {
                    let ghost m1 = *m;
                    let found = match &cur {
                        Some(x) => x.find_vfile_byname(comp.as_slice(), m),
                        None => self.find_vfile_byname(comp.as_slice(), m),
                    };
                    match found {
                        Some(f) => {
                            proof {
                                lemma_child_same(&m1, old(m), &d, comp0, &f);
                                assert forall|g: VFile| #[trigger] resolves(old(m), &f, Seq::empty(), path@.skip(i + 1), &g) implies resolves(
                                    old(m), self, Seq::empty(), path@, &g) by {
                                    assert(resolves(old(m), &d, comp0, rest, &g));
                                }
                                if fails(old(m), &f, Seq::empty(), path@.skip(i + 1)) {
                                    assert(fails(old(m), &d, comp0, rest));
                                }
                            }
                            cur = Some(f);
                            comp = Vec::new();
                            proof {
                                assert(comp@ =~= Seq::<u8>::empty());
                            }
                        },
                        None => {
                            proof {
                                lemma_no_child_same(&m1, old(m), &d, comp0);
                                assert(fails(old(m), &d, comp0, rest));
                            }
                            return None;
                        },
                    }
                } else {
                    proof {
                        assert forall|g: VFile| #[trigger] resolves(old(m), &d, comp0, path@.skip(i + 1), &g) implies resolves(
                            old(m), self, Seq::empty(), path@, &g) by {
                            assert(resolves(old(m), &d, comp0, rest, &g));
                        }
                        if fails(old(m), &d, comp0, path@.skip(i + 1)) {
                            assert(fails(old(m), &d, comp0, rest));
                        }
                    }
                }
            } else {
                comp.push(c);
                proof {
                    assert forall|g: VFile| #[trigger] resolves(old(m), &d, comp@, path@.skip(i + 1), &g) implies resolves(
                        old(m), self, Seq::empty(), path@, &g) by {
                        assert(resolves(old(m), &d, comp0, rest, &g));
                    }
                    if fails(old(m), &d, comp@, path@.skip(i + 1)) {
                        assert(fails(old(m), &d, comp0, rest));
                    }
                }
            }
            i += 1;
        }
        let ghost d = pick(cur, *self);
        proof {
            assert(path@.skip(path@.len() as int) =~= Seq::<u8>::empty());
        }
        if comp.len() > 0 {
            let ghost m1 = *m;
            let ghost comp0 = comp@;
            let found = match &cur {
                Some(x) => x.find_vfile_byname(comp.as_slice(), m),
                None => self.find_vfile_byname(comp.as_slice(), m),
            };
            match found {
                Some(f) => {
                    proof {
                        lemma_child_same(&m1, old(m), &d, comp0, &f);
                        assert(resolves(old(m), &d, comp@, path@.skip(i as int), &f));
                    }
                    Some(f)
                },
                None => {
                    proof {
                        lemma_no_child_same(&m1, old(m), &d, comp0);
                        assert(fails(old(m), &d, comp0, Seq::empty()));
                    }
                    None
                },
            }
        } else {
            let f = match cur {
                Some(x) => x,
                None => self.duplicate(),
            };
            proof {
                assert(comp@ =~= Seq::<u8>::empty());
                assert(resolves(old(m), &d, comp@, path@.skip(i as int), &f));
            }
            Some(f)
        }
    }
}

/// The handle that a walk is at: the one found last, or the start.
pub open spec fn pick(cur: Option<VFile>, start: VFile) -> VFile {
    match cur {
        Some(c) => c,
        None => start,
    }
}

/// `f` is reached from directory `dir` with component `comp` under way by
/// walking `path`: `/` ends a component, which is looked up as `child_of`
/// states; empty components are skipped.
pub open spec fn resolves<D: BlockDevice>(m: &FAT32Manager<D>, dir: &VFile, comp: Seq<u8>, path: Seq<u8>, f: &VFile) -> bool
    decreases path.len(),
{
    if path.len() == 0 {
        if comp.len() == 0 {
            same_file(f, dir)
        } else {
            exists|mid: VFile| #[trigger] child_of(m, dir, comp, &mid) && same_file(f, &mid)
        }
    } else if path[0] == 0x2F {
        if comp.len() == 0 {
            resolves(m, dir, comp, path.drop_first(), f)
        } else {
            exists|mid: VFile| #[trigger] child_of(m, dir, comp, &mid) && resolves(m, &mid, Seq::empty(), path.drop_first(), f)
        }
    } else {
        resolves(m, dir, comp.push(path[0]), path.drop_first(), f)
    }
}

/// Walking `path` from `dir` with `comp` under way meets a component that
/// is not there (or a file where a directory is needed).
pub open spec fn fails<D: BlockDevice>(m: &FAT32Manager<D>, dir: &VFile, comp: Seq<u8>, path: Seq<u8>) -> bool
    decreases path.len(),
{
    if path.len() == 0 {
        comp.len() > 0 && no_child(m, dir, comp)
    } else if path[0] == 0x2F {
        if comp.len() == 0 {
            fails(m, dir, comp, path.drop_first())
        } else {
            no_child(m, dir, comp) || exists|mid: VFile| #[trigger] child_of(m, dir, comp, &mid) && fails(m, &mid, Seq::empty(), path.drop_first())
        }
    } else {
        fails(m, dir, comp.push(path[0]), path.drop_first())
    }
}

/// `child_of` depends on what the volume reads, not on the cache.
pub proof fn lemma_child_same<D: BlockDevice>(m1: &FAT32Manager<D>, m2: &FAT32Manager<D>, dir: &VFile, name: Seq<u8>, f: &VFile)
    requires
        m1.same_but_cache(m2),
        m1.view() == m2.view(),
        child_of(m1, dir, name, f),
    ensures
        child_of(m2, dir, name, f),
{
    let (e, b, k) = choose|e: ShortDirEntry, b: Seq<u8>, k: int| dir.dir_data(m1, e, b) && child_at_index(m1, e, b, k, name, f);
    assert(m1.good_chain(e.spec_first_cluster()) == m2.good_chain(e.spec_first_cluster()));
    assert(dir.dir_data(m2, e, b));
    assert(child_at_index(m2, e, b, k, name, f));
}

/// `resolves` depends on what the volume reads, not on the cache.
pub proof fn lemma_resolves_same<D: BlockDevice>(
    m1: &FAT32Manager<D>,
    m2: &FAT32Manager<D>,
    dir: &VFile,
    comp: Seq<u8>,
    path: Seq<u8>,
    f: &VFile,
)
    requires
        m1.same_but_cache(m2),
        m1.view() == m2.view(),
        resolves(m1, dir, comp, path, f),
    ensures
        resolves(m2, dir, comp, path, f),
    decreases path.len(),
{
    if path.len() == 0 {
        if comp.len() > 0 {
            let mid = choose|mid: VFile| #[trigger] child_of(m1, dir, comp, &mid) && same_file(f, &mid);
            lemma_child_same(m1, m2, dir, comp, &mid);
        }
    } else if path[0] == 0x2F {
        if comp.len() == 0 {
            lemma_resolves_same(m1, m2, dir, comp, path.drop_first(), f);
        } else {
            let mid = choose|mid: VFile| #[trigger] child_of(m1, dir, comp, &mid) && resolves(m1, &mid, Seq::empty(), path.drop_first(), f);
            lemma_child_same(m1, m2, dir, comp, &mid);
            lemma_resolves_same(m1, m2, &mid, Seq::empty(), path.drop_first(), f);
        }
    } else {
        lemma_resolves_same(m1, m2, dir, comp.push(path[0]), path.drop_first(), f);
    }
}

/// `fails` depends on what the volume reads, not on the cache.
pub proof fn lemma_fails_same<D: BlockDevice>(
    m1: &FAT32Manager<D>,
    m2: &FAT32Manager<D>,
    dir: &VFile,
    comp: Seq<u8>,
    path: Seq<u8>,
)
    requires
        m1.same_but_cache(m2),
        m1.view() == m2.view(),
        fails(m1, dir, comp, path),
    ensures
        fails(m2, dir, comp, path),
    decreases path.len(),
{
    if path.len() == 0 {
        lemma_no_child_same(m1, m2, dir, comp);
    } else if path[0] == 0x2F {
        if comp.len() == 0 {
            lemma_fails_same(m1, m2, dir, comp, path.drop_first());
        } else if no_child(m1, dir, comp) {
            lemma_no_child_same(m1, m2, dir, comp);
        } else {
            let mid = choose|mid: VFile| #[trigger] child_of(m1, dir, comp, &mid) && fails(m1, &mid, Seq::empty(), path.drop_first());
            lemma_child_same(m1, m2, dir, comp, &mid);
            lemma_fails_same(m1, m2, &mid, Seq::empty(), path.drop_first());
        }
    } else {
        lemma_fails_same(m1, m2, dir, comp.push(path[0]), path.drop_first());
    }
}

/// `no_child` depends on what the volume reads, not on the cache.
pub proof fn lemma_no_child_same<D: BlockDevice>(m1: &FAT32Manager<D>, m2: &FAT32Manager<D>, dir: &VFile, name: Seq<u8>)
    requires
        m1.same_but_cache(m2),
        m1.view() == m2.view(),
        no_child(m1, dir, name),
    ensures
        no_child(m2, dir, name),
{
    if dir.attribute & crate::layout::ATTRIBUTE_DIRECTORY != 0 {
        let (e, b) = choose|e: ShortDirEntry, b: Seq<u8>| dir.dir_data(m1, e, b) && forall|k: int|
            0 <= k < crate::dir::entries(b).len() ==> #[trigger] crate::dir::entries(b)[k].0 != name;
        assert(m1.good_chain(e.spec_first_cluster()) == m2.good_chain(e.spec_first_cluster()));
        assert(dir.dir_data(m2, e, b));
    }
}

} // verus!

verus! {

impl VFile {
    /// Writes `buf` at `offset`, never past the file's size, as
    /// `ShortDirEntry::write_at` does with this file's entry.
    pub fn write_at<D: BlockDevice>(&self, offset: usize, buf: &[u8], m: &mut FAT32Manager<D>) -> (r: usize)
        requires
            old(m).wf(),
            self.slot_ok(old(m).root_sector as int, old(m).view().len() as int),
        ensures
            final(m).wf(),
            final(m).same_but_cache(old(m)),
            final(m).view().len() == old(m).view().len(),
            final(m).same_tables(old(m).view(), final(m).view()),
            exists|e: ShortDirEntry|
                self.entry_in(old(m), e) && ({
                    let data = old(m).file_data(e.spec_first_cluster());
                    let stop = stop_at(offset as int, buf@.len() as int, e.limit(data.len() as int));
                    &&& r == if offset < stop { stop - offset } else { 0 }
                    &&& r > 0 && old(m).good_chain(e.spec_first_cluster()).no_duplicates() ==> final(m).file_data(e.spec_first_cluster())
                        == crate::utils::splice(data, offset as int, buf@.take(r as int))
                    &&& forall|s: int|
                        0 <= s < old(m).view().len() && (forall|o: int|
                            0 <= o < data.len() ==> #[trigger] sector_of(
                                old(m).root_sector as int,
                                old(m).sectors_per_cluster as int,
                                old(m).good_chain(e.spec_first_cluster()),
                                o,
                            ) != s) ==> #[trigger] final(m).view()[s] == old(m).view()[s]
                }),
    {
        let e = self.get_entry(m);
        e.write_at(offset, buf, m)
    }

    /// Empties this file: size 0 and no first cluster; the entry stays. The
    /// clusters are not freed here.
    pub fn clear<D: BlockDevice>(&self, m: &mut FAT32Manager<D>)
        requires
            old(m).wf(),
            !self.is_root,
            self.slot_ok(old(m).root_sector as int, old(m).view().len() as int),
        ensures
            final(m).wf(),
            final(m).same_but_cache(old(m)),
            final(m).view().len() == old(m).view().len(),
            final(m).same_tables(old(m).view(), final(m).view()),
            exists|e0: ShortDirEntry, e1: ShortDirEntry|
                #![trigger self.entry_in(old(m), e0), self.entry_in(final(m), e1)]
                self.entry_in(old(m), e0) && self.entry_in(final(m), e1) && e1 == (ShortDirEntry {
                    size: 0,
                    cluster_high: 0,
                    cluster_low: 0,
                    ..e0
                }),
    {
        let mut e = self.get_entry(m);
        let ghost e0 = e;
        e.clear();
        self.put_entry(&e, m);
        proof {
            assert(self.entry_in(old(m), e0));
            assert(self.entry_in(m, e));
        }
    }
}

impl ShortDirEntry {
    /// Where byte `offset` of this entry's data lies: the cluster reached
    /// by walking `offset / bytes_per_cluster` links, the sector in it, and
    /// the byte in that sector. `None` where the walk leaves the table.
    pub fn get_pos<D: BlockDevice>(&self, offset: usize, manager: &mut FAT32Manager<D>) -> (r: Option<(u32, usize, usize)>)
        requires
            old(manager).wf(),
            offset <= u32::MAX,
        ensures
            final(manager).wf(),
            final(manager).same_but_cache(old(manager)),
            final(manager).view() == old(manager).view(),
            ({
                let c = old(manager).fat.walk(
                    old(manager).view(),
                    self.spec_first_cluster(),
                    (offset as u32 / old(manager).bytes_per_cluster) as nat,
                );
                match r {
                    Some((cl, sec, off)) => {
                        &&& cl == c
                        &&& sec == old(manager).cluster_sector(c as int) + (offset as int % (old(manager).bytes_per_cluster as int)) / 512
                        &&& off == offset % 512
                    },
                    None => !(2 <= c < old(manager).fat.n_entry),
                }
            }),
    {
        let index = manager.cluster_of_offset(offset);
        proof {
            manager.cache.lemma_wf();
        }
        let c = manager.fat.get_cluster_at(self.first_cluster(), index, &mut manager.cache);
        if c < 2 || c >= manager.fat.n_entry {
            return None;
        }
        let bpc = manager.bytes_per_cluster as usize;
        let within = offset % bpc;
        proof {
            assert(within / 512 < manager.sectors_per_cluster) by (nonlinear_arith)
                requires
                    within == offset as int % bpc as int,
                    bpc == manager.sectors_per_cluster * 512,
                    manager.sectors_per_cluster >= 1,
            ;
            manager.cache.lemma_wf();
        }
        let sec = manager.first_sector_of_cluster(c) + within / BLOCK_SZ;
        Some((c, sec, offset % BLOCK_SZ))
    }
}

} // verus!

verus! {

/// Index of the last `/` in `s`, if there is one.
fn last_slash(s: &[u8]) -> (r: Option<usize>)
    ensures
        match r {
            Some(i) => i < s@.len() && s@[i as int] == 0x2F && forall|j: int| i < j < s@.len() ==> s@[j] != 0x2F,
            None => forall|j: int| 0 <= j < s@.len() ==> s@[j] != 0x2F,
        },
{
    let mut i: usize = s.len();
    while i > 0
        invariant
            i <= s@.len(),
            forall|j: int| i <= j < s@.len() ==> s@[j] != 0x2F,
        decreases i,
    {
        if s[i - 1] == 0x2F {
            return Some(i - 1);
        }
        i -= 1;
    }
    None
}

/// Why opening `path` with `create` can find the volume inconsistent, going
/// from `m0` to `m` with parent directory `p`: the parent's first cluster
/// or chain tail lies outside the table, or the name does not read back
/// although the volume changed or an entry stood at `path` before.
pub open spec fn open_corrupt<D: BlockDevice>(
    m0: &FAT32Manager<D>,
    m: &FAT32Manager<D>,
    cwd: &VFile,
    path: Seq<u8>,
    p: &VFile,
    name: Seq<u8>,
) -> bool {
    (exists|e: ShortDirEntry|
        #![trigger p.entry_in(m, e)]
        p.entry_in(m, e) && (e.spec_first_cluster() < 2 || !tail_ok(m, e.spec_first_cluster()))) || ((m.view()
        != m0.view() || exists|f0: VFile| #[trigger] resolves(m0, cwd, Seq::empty(), path, &f0)) && exists|b: Seq<u8>|
        p.dir_bytes(m, b) && forall|k: int|
            0 <= k < crate::dir::entries(b).len() ==> #[trigger] crate::dir::entries(b)[k].0 != name)
}

/// `i` is where `path` splits into a parent path and a last name: the
/// index of its last `/`, or -1 where it has none.
pub open spec fn last_split(path: Seq<u8>, i: int) -> bool {
    &&& -1 <= i < path.len()
    &&& i >= 0 ==> path[i] == 0x2F
    &&& forall|j: int| i < j < path.len() ==> path[j] != 0x2F
}

/// The part of `path` before split `i`.
pub open spec fn parent_part(path: Seq<u8>, i: int) -> Seq<u8> {
    if i < 0 {
        Seq::empty()
    } else {
        path.take(i)
    }
}

/// Opens `path` from directory `cwd`.
///
/// Without `create`: the entry `path` resolves to, emptied with `trunc`;
/// `None` exactly where the walk fails. With `create`: the name after the
/// last `/` must be valid; the parent path must resolve to a directory; an
/// entry already at `path` is removed; then the name is created in the
/// parent (a directory where `dir` holds, else a file).
pub fn open<D: BlockDevice>(cwd: &VFile, path: &[u8], create: bool, trunc: bool, dir: bool, m: &mut FAT32Manager<D>) -> (r: Option<VFile>)
    requires
        old(m).wf(),
        cwd.slot_ok(old(m).root_sector as int, old(m).view().len() as int),
        cwd.longs_ok(old(m).root_sector as int, old(m).view().len() as int),
    ensures
        final(m).wf(),
        final(m).root_sector == old(m).root_sector,
        final(m).view().len() == old(m).view().len(),
        r matches Some(f) ==> f.slot_ok(final(m).root_sector as int, final(m).view().len() as int),
        !create ==> (r matches Some(f) ==> resolves(old(m), cwd, Seq::empty(), path@, &f)),
        !create ==> (r is None ==> fails(old(m), cwd, Seq::empty(), path@)),
        !create && trunc ==> (r matches Some(f) ==> !f.is_root ==> exists|e: ShortDirEntry|
            #![trigger f.entry_in(final(m), e)]
            f.entry_in(final(m), e) && e.size == 0 && e.spec_first_cluster() == 0),
        !create && !trunc ==> final(m).view() == old(m).view(),
        create ==> forall|i: int|
            #![trigger last_split(path@, i)]
            last_split(path@, i) ==> {
                let name = path@.skip(i + 1);
                &&& r matches Some(f) ==> f.name@ == name
                &&& r is None ==> !valid_name(name) || name.len() > MAX_NAME_LEN || fails(
                    old(m),
                    cwd,
                    Seq::empty(),
                    parent_part(path@, i),
                ) || exists|p: VFile|
                    #![trigger resolves(old(m), cwd, Seq::empty(), parent_part(path@, i), &p)]
                    resolves(old(m), cwd, Seq::empty(), parent_part(path@, i), &p) && (p.attribute
                        & crate::layout::ATTRIBUTE_DIRECTORY == 0 || !final(m).can_alloc(2) || open_corrupt(
                        old(m),
                        final(m),
                        cwd,
                        path@,
                        &p,
                        name,
                    ))
            },
{
    if create {
        let plen = path.len();
        let split = last_slash(path);
        let (parent_path, name) = match split {
            Some(i) => (vstd::slice::slice_subrange(path, 0, i), vstd::slice::slice_subrange(path, i + 1, plen)),
            None => (vstd::slice::slice_subrange(path, 0, 0), path),
        };
        let ghost gi: int = match split {
            Some(i) => i as int,
            None => -1,
        };
        proof {
            assert(last_split(path@, gi));
            assert(name@ =~= path@.skip(gi + 1));
            assert(parent_path@ =~= parent_part(path@, gi));
            assert forall|i: int| last_split(path@, i) implies i == gi by {
                if i < gi {
                    assert(path@[gi] != 0x2F);
                }
                if i > gi {
                    assert(path@[i] != 0x2F);
                }
            }
        }
        if !check_name(name) || name.len() > MAX_NAME_LEN {
            return None;
        }
        let existing = cwd.find_by_path(path, m);
        let ghost m1 = *m;
        let parent = match cwd.find_by_path(parent_path, m) {
            Some(p) => p,
            None => {
                proof {
                    lemma_fails_same(&m1, old(m), cwd, Seq::empty(), parent_part(path@, gi));
                }
                return None;
            },
        };
        proof {
            lemma_resolves_same(&m1, old(m), cwd, Seq::empty(), parent_part(path@, gi), &parent);
        }
        if !parent.is_dir() {
            return None;
        }
        let ghost had_entry = existing is Some;
        proof {
            if had_entry {
                let f0 = existing->Some_0;
                assert(resolves(old(m), cwd, Seq::empty(), path@, &f0));
            }
        }
        match existing {
            Some(old_file) => {
                if !old_file.is_root {
                    let _ = old_file.remove(m);
                }
            },
            None => {},
        }
        let ghost m2 = *m;
        let attribute = if dir {
            crate::layout::ATTRIBUTE_DIRECTORY
        } else {
            crate::layout::ATTRIBUTE_ARCHIVE
        };
        match parent.create(name, attribute, m) {
            Ok(f) => Some(f),
            Err(_) => {
                proof {
                    assert(resolves(old(m), cwd, Seq::empty(), parent_part(path@, gi), &parent));
                    if !had_entry {
                        assert(m2.view() == old(m).view());
                    }
                }
                None
            },
        }
    } else {
        match cwd.find_by_path(path, m) {
            Some(f) => {
                if trunc && !f.is_root {
                    f.clear(m);
                }
                Some(f)
            },
            None => None,
        }
    }
}

} // verus!

verus! {

impl VFile {
    /// The first entry of this directory whose short slot lies at byte
    /// `offset` or later: its name, first cluster, the byte offset just
    /// past its short slot (where the next call starts), and its
    /// attribute. `None` past the last entry.
    pub fn dirent_info<D: BlockDevice>(&self, offset: usize, m: &mut FAT32Manager<D>) -> (r: Option<(Vec<u8>, u32, usize, u8)>)
        requires
            old(m).wf(),
            self.slot_ok(old(m).root_sector as int, old(m).view().len() as int),
        ensures
            final(m).wf(),
            final(m).same_but_cache(old(m)),
            final(m).view() == old(m).view(),
            exists|b: Seq<u8>|
                #![trigger self.dir_bytes(old(m), b)]
                {
                    let es = crate::dir::entries(b);
                    &&& self.dir_bytes(old(m), b)
                    &&& (r is None <==> forall|k: int| 0 <= k < es.len() ==> 32 * (#[trigger] es[k]).1 < offset)
                    &&& r matches Some(t) ==> exists|k: int|
                        {
                            &&& 0 <= k < es.len()
                            &&& 32 * (#[trigger] es[k]).1 >= offset
                            &&& forall|q: int| 0 <= q < k ==> 32 * (#[trigger] es[q]).1 < offset
                            &&& t.0@ == es[k].0
                            &&& t.1 == u16_at(crate::dir::slot(b, es[k].1), 20) as int * 65536 + u16_at(
                                crate::dir::slot(b, es[k].1),
                                26,
                            )
                            &&& t.2 == 32 * es[k].1 + 32
                            &&& t.3 == crate::dir::slot(b, es[k].1)[11]
                        }
                },
    {
        let b = self.all_bytes(m);
        let blen = b.len();
        proof {
            assert(self.dir_bytes(old(m), b@));
            crate::dir::lemma_scan_bounds(b@, 0, Seq::empty());
        }
        let items = crate::dir::parse_dir(b.as_slice());
        proof {
            assert forall|q: int| 0 <= q < items@.len() implies 32 * (#[trigger] items@[q]).slot + 32 <= blen by {
                assert(items@[q].spec_view() == crate::dir::entries(b@)[q]);
                let s = items@[q].slot;
                assert(32 * s + 32 <= blen) by (nonlinear_arith)
                    requires
                        s < blen / 32,
                ;
            }
        }
        let mut k: usize = 0;
        while k < items.len() && 32 * items[k].slot < offset
            invariant
                k <= items@.len(),
                blen == b@.len(),
                forall|q: int| 0 <= q < items@.len() ==> 32 * (#[trigger] items@[q]).slot + 32 <= blen,
                items@.len() == crate::dir::entries(b@).len(),
                forall|q: int| 0 <= q < items@.len() ==> #[trigger] items@[q].spec_view() == crate::dir::entries(b@)[q],
                forall|q: int|
                    0 <= q < crate::dir::entries(b@).len() ==> 0 <= (#[trigger] crate::dir::entries(b@)[q]).1 < b@.len() / 32,
                forall|q: int| 0 <= q < k ==> 32 * (#[trigger] crate::dir::entries(b@)[q]).1 < offset,
            decreases items@.len() - k,
        {
            proof {
                assert(items@[k as int].spec_view() == crate::dir::entries(b@)[k as int]);
                assert(32 * items@[k as int].slot + 32 <= blen) by (nonlinear_arith)
                    requires
                        items@[k as int].slot < blen / 32,
                ;
            }
            k += 1;
        }
        proof {
            assert(self.dir_bytes(old(m), b@));
        }
        if k == items.len() {
            return None;
        }
        let it = &items[k];
        let s = it.slot;
        proof {
            assert(it.spec_view() == crate::dir::entries(b@)[k as int]);
            assert(32 * s + 32 <= blen) by (nonlinear_arith)
                requires
                    s < blen / 32,
            ;
            assert(it.entry.parsed_from(crate::dir::slot(b@, s as int)));
        }
        let name = vstd::slice::slice_to_vec(it.name.as_slice());
        Some((name, it.entry.first_cluster(), 32 * s + 32, it.entry.attribute))
    }
}

} // verus!
