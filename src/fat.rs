//! The file allocation table: cluster chains held in two mirrored tables.
use vstd::prelude::*;

use crate::block_cache::{BlockCache, Pool};
use crate::block_dev::BlockDevice;
use crate::layout::{BAD_CLUSTER, END_CLUSTER, FATENTRY_PER_SEC, FREE_CLUSTER};
use crate::block_dev::sectors_ok;
use crate::utils::{le32, lemma_u32_at_splice, read_u32_le, splice, u32_at};

verus! {

/// The entry of cluster `c` in the table that starts at sector `base`.
#[verifier::opaque]
pub open spec fn entry_at(v: Seq<Seq<u8>>, base: int, c: int) -> u32 {
    u32_at(v[base + c / 128], 4 * (c % 128))
}

/// `v` with the entry of cluster `c` in the table at `base` set to `x`.
pub open spec fn set_entry(v: Seq<Seq<u8>>, base: int, c: int, x: u32) -> Seq<Seq<u8>> {
    v.update(base + c / 128, splice(v[base + c / 128], 4 * (c % 128), le32(x)))
}

/// Location and size of the two tables.
#[derive(Clone, Copy, Debug)]
pub struct FAT {
    pub fat1_sector: u32,
    pub fat2_sector: u32,
    pub n_sectors: u32,
    pub n_entry: u32,
}

impl FAT {
    /// Both tables lie inside a volume of `nsec` sectors and hold `n_entry`
    /// entries.
    pub open spec fn fits(&self, nsec: int) -> bool {
        &&& self.fat1_sector + self.n_sectors <= nsec
        &&& self.fat2_sector + self.n_sectors <= nsec
        &&& self.bounded()
    }

    /// Sector numbers of both tables fit in 32 bits.
    pub open spec fn bounded(&self) -> bool {
        &&& self.fat1_sector + self.n_sectors <= u32::MAX
        &&& self.fat2_sector + self.n_sectors <= u32::MAX
        &&& self.n_entry <= 128 * self.n_sectors
        &&& self.n_entry <= BAD_CLUSTER
    }

    /// FAT1's entry for `c`.
    pub open spec fn fat1(&self, v: Seq<Seq<u8>>, c: int) -> u32 {
        entry_at(v, self.fat1_sector as int, c)
    }

    /// FAT2's entry for `c`.
    pub open spec fn fat2(&self, v: Seq<Seq<u8>>, c: int) -> u32 {
        entry_at(v, self.fat2_sector as int, c)
    }

    /// The cluster after `c`: FAT1's entry, FAT2's where FAT1 reads bad, 0
    /// where both do; 28 bits kept.
    pub open spec fn next_of(&self, v: Seq<Seq<u8>>, c: int) -> u32 {
        if self.fat1(v, c) == BAD_CLUSTER {
            if self.fat2(v, c) == BAD_CLUSTER {
                0
            } else {
                self.fat2(v, c) % 0x1000_0000
            }
        } else {
            self.fat1(v, c) % 0x1000_0000
        }
    }

    /// The volume with `c`'s entry set to `x` in both tables.
    pub open spec fn set_next(&self, v: Seq<Seq<u8>>, c: int, x: u32) -> Seq<Seq<u8>> {
        set_entry(set_entry(v, self.fat1_sector as int, c, x), self.fat2_sector as int, c, x)
    }

    /// The link that follows `c` in a chain, if there is one.
    pub open spec fn step(&self, v: Seq<Seq<u8>>, c: u32) -> Option<u32> {
        if c >= self.n_entry {
            None
        } else {
            let nx = self.next_of(v, c as int);
            if nx >= END_CLUSTER || nx == 0 {
                None
            } else {
                Some(nx)
            }
        }
    }

    /// The chain from `c`, at most `fuel` clusters long.
    #[verifier::opaque]
    pub open spec fn chain(&self, v: Seq<Seq<u8>>, c: u32, fuel: nat) -> Seq<u32>
        decreases fuel,
    {
        if fuel == 0 {
            Seq::empty()
        } else {
            seq![c] + match self.step(v, c) {
                None => Seq::empty(),
                Some(n) => self.chain(v, n, (fuel - 1) as nat),
            }
        }
    }

    /// The chain from `c`, as long as the table allows.
    pub open spec fn chain_of(&self, v: Seq<Seq<u8>>, c: u32) -> Seq<u32> {
        self.chain(v, c, self.n_entry as nat)
    }

    /// Cluster `i` hops from `c`: 0 when a free entry comes first, and the
    /// value reached when it lies outside the table.
    pub open spec fn walk(&self, v: Seq<Seq<u8>>, c: u32, i: nat) -> u32
        decreases i,
    {
        if i == 0 || c >= self.n_entry {
            c
        } else {
            let nx = self.next_of(v, c as int);
            if nx == 0 {
                0
            } else {
                self.walk(v, nx, (i - 1) as nat)
            }
        }
    }

    pub fn new(fat1_sector: u32, fat2_sector: u32, n_sectors: u32, n_entry: u32) -> (r: Self)
        ensures
            r == (FAT { fat1_sector, fat2_sector, n_sectors, n_entry }),
    {
        Self { fat1_sector, fat2_sector, n_sectors, n_entry }
    }

    /// Sector of `cluster`'s entry in FAT1 and in FAT2, and its byte offset.
    fn calculate_pos(&self, cluster: u32) -> (r: (u32, u32, u32))
        requires
            cluster < self.n_entry,
            self.bounded(),
        ensures
            r.0 == self.fat1_sector + cluster / 128,
            r.1 == self.fat2_sector + cluster / 128,
            r.2 == 4 * (cluster % 128),
    {
        let fat1_sec = self.fat1_sector + cluster / FATENTRY_PER_SEC;
        let fat2_sec = self.fat2_sector + cluster / FATENTRY_PER_SEC;
        let offset = 4 * (cluster % FATENTRY_PER_SEC);
        (fat1_sec, fat2_sec, offset)
    }

    fn read_entry<D: BlockDevice>(cache: &mut BlockCache<D>, sector: u32, offset: u32) -> (r: u32)
        requires
            old(cache).wf(),
            sector < old(cache).view().len(),
            offset + 4 <= 512,
        ensures
            final(cache).wf(),
            final(cache).same_shape(old(cache)),
            final(cache).absolute() == old(cache).absolute(),
            final(cache).view() == old(cache).view(),
            r == u32_at(old(cache).view()[sector as int], offset as int),
            final(cache).cached_in(sector as int, Pool::Info),
            !final(cache).cached_in(sector as int, Pool::Data),
    {
        proof {
            cache.lemma_wf();
        }
        let b = cache.read(sector as usize, offset as usize, 4, Pool::Info);
        read_u32_le(b.as_slice(), 0)
    }

    /// The cluster after `cluster`, as `next_of` states.
    pub fn get_next_cluster<D: BlockDevice>(&self, cluster: u32, cache: &mut BlockCache<D>) -> (r: u32)
        requires
            old(cache).wf(),
            self.fits(old(cache).view().len() as int),
            cluster < self.n_entry,
        ensures
            final(cache).wf(),
            final(cache).same_shape(old(cache)),
            final(cache).absolute() == old(cache).absolute(),
            final(cache).view() == old(cache).view(),
            r == self.next_of(old(cache).view(), cluster as int),
            final(cache).cached_in(self.fat2_sector + cluster / 128, Pool::Info),
            !final(cache).cached_in(self.fat2_sector + cluster / 128, Pool::Data),
    {
        proof {
            cache.lemma_wf();
        }
        let (fat1_sec, fat2_sec, offset) = self.calculate_pos(cluster);
        let fat1_rs = Self::read_entry(cache, fat1_sec, offset);
        let fat2_rs = Self::read_entry(cache, fat2_sec, offset);
        proof {
            reveal(entry_at);
        }
        if fat1_rs == BAD_CLUSTER {
            if fat2_rs == BAD_CLUSTER {
                0
            } else {
                fat2_rs % 0x1000_0000
            }
        } else {
            fat1_rs % 0x1000_0000
        }
    }

    /// Links `cluster` to `next_cluster` in both tables.
    pub fn set_next_cluster<D: BlockDevice>(
        &self,
        cluster: u32,
        next_cluster: u32,
        cache: &mut BlockCache<D>,
    )
        requires
            old(cache).wf(),
            self.fits(old(cache).view().len() as int),
            cluster < self.n_entry,
        ensures
            final(cache).wf(),
            final(cache).same_shape(old(cache)),
            final(cache).view() == self.set_next(old(cache).view(), cluster as int, next_cluster),
            final(cache).cached_in(self.fat2_sector + cluster / 128, Pool::Info),
            !final(cache).cached_in(self.fat2_sector + cluster / 128, Pool::Data),
    {
        proof {
            cache.lemma_wf();
        }
        let (fat1_sec, fat2_sec, offset) = self.calculate_pos(cluster);
        let mut bytes: Vec<u8> = Vec::new();
        crate::utils::push_u32_le(&mut bytes, next_cluster);
        assert(bytes@ =~= le32(next_cluster));
        cache.write(fat1_sec as usize, offset as usize, bytes.as_slice(), Pool::Info);
        cache.write(fat2_sec as usize, offset as usize, bytes.as_slice(), Pool::Info);
    }

    /// Ends the chain at `cluster`.
    pub fn set_end<D: BlockDevice>(&self, cluster: u32, cache: &mut BlockCache<D>)
        requires
            old(cache).wf(),
            self.fits(old(cache).view().len() as int),
            cluster < self.n_entry,
        ensures
            final(cache).wf(),
            final(cache).same_shape(old(cache)),
            final(cache).view() == self.set_next(old(cache).view(), cluster as int, END_CLUSTER),
    {
        self.set_next_cluster(cluster, END_CLUSTER, cache);
    }

    /// The first cluster after `current_cluster` whose FAT1 entry is free;
    /// 0 when the table has none.
    pub fn next_free_cluster<D: BlockDevice>(&self, current_cluster: u32, cache: &mut BlockCache<D>) -> (r: u32)
        requires
            old(cache).wf(),
            self.fits(old(cache).view().len() as int),
        ensures
            final(cache).wf(),
            final(cache).same_shape(old(cache)),
            final(cache).absolute() == old(cache).absolute(),
            final(cache).view() == old(cache).view(),
            r != 0 ==> current_cluster < r < self.n_entry && self.fat1(old(cache).view(), r as int)
                == FREE_CLUSTER,
            forall|k: int|
                current_cluster < k < (if r == 0 { self.n_entry as int } else { r as int })
                    ==> self.fat1(old(cache).view(), k) != FREE_CLUSTER,
    {
        proof {
            cache.lemma_wf();
        }
        let ghost v = cache.view();
        if current_cluster >= self.n_entry {
            return 0;
        }
        let mut curr: u32 = current_cluster + 1;
        while curr < self.n_entry
            invariant
                cache.wf(),
                cache.same_shape(old(cache)),
                cache.view() == v,
                cache.absolute() == old(cache).absolute(),
                v == old(cache).view(),
                self.fits(v.len() as int),
                current_cluster < curr <= self.n_entry,
                forall|k: int| current_cluster < k < curr ==> self.fat1(v, k) != FREE_CLUSTER,
            decreases self.n_entry - curr,
        {
            let (fat1_sec, _fat2_sec, offset) = self.calculate_pos(curr);
            let entry = Self::read_entry(cache, fat1_sec, offset);
            proof {
                reveal(entry_at);
            }
            if entry == FREE_CLUSTER {
                return curr;
            }
            curr += 1;
        }
        0
    }

    /// The cluster `index` hops after `start_cluster`, as `walk` states.
    pub fn get_cluster_at<D: BlockDevice>(&self, start_cluster: u32, index: u32, cache: &mut BlockCache<D>) -> (r: u32)
        requires
            old(cache).wf(),
            self.fits(old(cache).view().len() as int),
        ensures
            final(cache).wf(),
            final(cache).same_shape(old(cache)),
            final(cache).absolute() == old(cache).absolute(),
            final(cache).view() == old(cache).view(),
            r == self.walk(old(cache).view(), start_cluster, index as nat),
    {
        let ghost v = cache.view();
        let mut cluster = start_cluster;
        let mut i: u32 = 0;
        while i < index
            invariant
                cache.wf(),
                cache.same_shape(old(cache)),
                cache.view() == v,
                cache.absolute() == old(cache).absolute(),
                v == old(cache).view(),
                self.fits(v.len() as int),
                i <= index,
                self.walk(v, cluster, (index - i) as nat) == self.walk(v, start_cluster, index as nat),
            decreases index - i,
        {
            if cluster >= self.n_entry {
                return cluster;
            }
            cluster = self.get_next_cluster(cluster, cache);
            if cluster == 0 {
                return 0;
            }
            i += 1;
        }
        cluster
    }

    /// The chain that starts at `start_cluster`, as `chain_of` states.
    pub fn get_all_cluster_of<D: BlockDevice>(&self, start_cluster: u32, cache: &mut BlockCache<D>) -> (r: Vec<u32>)
        requires
            old(cache).wf(),
            self.fits(old(cache).view().len() as int),
            self.n_entry > 0,
        ensures
            final(cache).wf(),
            final(cache).same_shape(old(cache)),
            final(cache).absolute() == old(cache).absolute(),
            final(cache).view() == old(cache).view(),
            r@ == self.chain_of(old(cache).view(), start_cluster),
    {
        let ghost v = cache.view();
        let mut out: Vec<u32> = Vec::new();
        let mut curr = start_cluster;
        let mut fuel: u32 = self.n_entry;
        loop
            invariant
                cache.wf(),
                cache.same_shape(old(cache)),
                cache.view() == v,
                cache.absolute() == old(cache).absolute(),
                v == old(cache).view(),
                self.fits(v.len() as int),
                0 < fuel <= self.n_entry,
                out@ + self.chain(v, curr, fuel as nat) == self.chain_of(v, start_cluster),
            decreases fuel,
        {
            out.push(curr);
            let ghost before = out@;
            proof {
                self.lemma_chain_unfold(v, curr, fuel as nat);
            }
            if curr >= self.n_entry {
                assert(out@ =~= self.chain_of(v, start_cluster));
                return out;
            }
            let next = self.get_next_cluster(curr, cache);
            if next >= END_CLUSTER || next == 0 || fuel == 1 {
                proof {
                    if fuel == 1 {
                        self.lemma_chain_unfold(v, next, 0);
                    }
                }
                assert(out@ =~= self.chain_of(v, start_cluster));
                return out;
            }
            assert(out@ + self.chain(v, next, (fuel - 1) as nat) =~= self.chain_of(v, start_cluster));
            curr = next;
            fuel = fuel - 1;
        }
    }

    /// The last cluster of the chain that starts at `start_cluster`.
    pub fn final_cluster<D: BlockDevice>(&self, start_cluster: u32, cache: &mut BlockCache<D>) -> (r: u32)
        requires
            old(cache).wf(),
            self.fits(old(cache).view().len() as int),
            self.n_entry > 0,
            start_cluster != 0,
        ensures
            final(cache).wf(),
            final(cache).same_shape(old(cache)),
            final(cache).absolute() == old(cache).absolute(),
            final(cache).view() == old(cache).view(),
            r == self.chain_of(old(cache).view(), start_cluster).last(),
    {
        let all = self.get_all_cluster_of(start_cluster, cache);
        proof {
            self.lemma_chain_nonempty(cache.view(), start_cluster, self.n_entry as nat);
        }
        all[all.len() - 1]
    }

    /// Number of clusters in the chain from `start_cluster`; 0 for cluster 0.
    pub fn count_cluster_num<D: BlockDevice>(&self, start_cluster: u32, cache: &mut BlockCache<D>) -> (r: u32)
        requires
            old(cache).wf(),
            self.fits(old(cache).view().len() as int),
            self.n_entry > 0,
        ensures
            final(cache).wf(),
            final(cache).same_shape(old(cache)),
            final(cache).absolute() == old(cache).absolute(),
            final(cache).view() == old(cache).view(),
            r == (if start_cluster == 0 {
                0
            } else {
                self.chain_of(old(cache).view(), start_cluster).len()
            }),
    {
        if start_cluster == 0 {
            return 0;
        }
        let all = self.get_all_cluster_of(start_cluster, cache);
        proof {
            self.lemma_chain_len(cache.view(), start_cluster, self.n_entry as nat);
        }
        all.len() as u32
    }

    /// One step of a chain.
    pub proof fn lemma_chain_unfold(&self, v: Seq<Seq<u8>>, c: u32, fuel: nat)
        ensures
            self.chain(v, c, fuel) == if fuel == 0 {
                Seq::empty()
            } else {
                seq![c] + match self.step(v, c) {
                    None => Seq::empty(),
                    Some(n) => self.chain(v, n, (fuel - 1) as nat),
                }
            },
    {
        reveal(FAT::chain);
    }

    /// A chain with fuel is not empty.
    pub proof fn lemma_chain_nonempty(&self, v: Seq<Seq<u8>>, c: u32, fuel: nat)
        requires
            fuel > 0,
        ensures
            self.chain(v, c, fuel).len() > 0,
            self.chain(v, c, fuel)[0] == c,
    {
        self.lemma_chain_unfold(v, c, fuel);
    }

    /// A chain is no longer than its fuel.
    pub proof fn lemma_chain_len(&self, v: Seq<Seq<u8>>, c: u32, fuel: nat)
        ensures
            self.chain(v, c, fuel).len() <= fuel,
        decreases fuel,
    {
        self.lemma_chain_unfold(v, c, fuel);
        if fuel > 0 {
            match self.step(v, c) {
                None => {},
                Some(n) => self.lemma_chain_len(v, n, (fuel - 1) as nat),
            }
        }
    }
}


/// Reading four bytes away from a written window sees the old bytes.
pub proof fn lemma_u32_at_splice_other(b: Seq<u8>, i: int, x: u32, j: int)
    requires
        0 <= i,
        i + 4 <= b.len(),
        0 <= j,
        j + 4 <= b.len(),
        j + 4 <= i || i + 4 <= j,
    ensures
        u32_at(splice(b, i, le32(x)), j) == u32_at(b, j),
{
    let s = splice(b, i, le32(x));
    assert(s[j] == b[j] && s[j + 1] == b[j + 1] && s[j + 2] == b[j + 2] && s[j + 3] == b[j + 3]);
}

impl FAT {
    /// The two tables do not overlap.
    pub open spec fn apart(&self) -> bool {
        self.fat1_sector + self.n_sectors <= self.fat2_sector
    }

    /// Whether sector `s` belongs to one of the tables.
    pub open spec fn in_tables(&self, s: int) -> bool {
        (self.fat1_sector <= s < self.fat1_sector + self.n_sectors) || (self.fat2_sector <= s
            < self.fat2_sector + self.n_sectors)
    }

    /// Setting one entry in both tables changes that entry alone, and no
    /// sector outside the tables.
    pub proof fn lemma_set_next_frame(&self, v: Seq<Seq<u8>>, c: int, x: u32)
        requires
            sectors_ok(v),
            self.fits(v.len() as int),
            self.apart(),
            0 <= c < self.n_entry,
        ensures
            sectors_ok(self.set_next(v, c, x)),
            self.set_next(v, c, x).len() == v.len(),
            forall|d: int|
                0 <= d < self.n_entry ==> #[trigger] self.fat1(self.set_next(v, c, x), d) == if d
                    == c {
                    x
                } else {
                    self.fat1(v, d)
                },
            forall|d: int|
                0 <= d < self.n_entry ==> #[trigger] self.fat2(self.set_next(v, c, x), d) == if d
                    == c {
                    x
                } else {
                    self.fat2(v, d)
                },
            forall|s: int|
                0 <= s < v.len() && !self.in_tables(s) ==> #[trigger] self.set_next(v, c, x)[s]
                    == v[s],
    {
        reveal(entry_at);
        let b1 = self.fat1_sector as int;
        let b2 = self.fat2_sector as int;
        let v1 = set_entry(v, b1, c, x);
        let v2 = set_entry(v1, b2, c, x);
        assert(c / 128 < self.n_sectors) by (nonlinear_arith)
            requires
                0 <= c < self.n_entry,
                self.n_entry <= 128 * self.n_sectors,
        ;
        assert forall|d: int| 0 <= d < self.n_entry implies #[trigger] self.fat1(v2, d) == if d == c {
            x
        } else {
            self.fat1(v, d)
        } by {
            assert(d / 128 < self.n_sectors) by (nonlinear_arith)
                requires
                    0 <= d < self.n_entry,
                    self.n_entry <= 128 * self.n_sectors,
            ;
            assert(v2[b1 + d / 128] == v1[b1 + d / 128]);
            if d == c {
                lemma_u32_at_splice(v[b1 + c / 128], 4 * (c % 128), x);
            } else if d / 128 == c / 128 {
                lemma_u32_at_splice_other(v[b1 + c / 128], 4 * (c % 128), x, 4 * (d % 128));
            }
        }
        assert forall|d: int| 0 <= d < self.n_entry implies #[trigger] self.fat2(v2, d) == if d == c {
            x
        } else {
            self.fat2(v, d)
        } by {
            assert(d / 128 < self.n_sectors) by (nonlinear_arith)
                requires
                    0 <= d < self.n_entry,
                    self.n_entry <= 128 * self.n_sectors,
            ;
            assert(v1[b2 + d / 128] == v[b2 + d / 128]);
            if d == c {
                lemma_u32_at_splice(v1[b2 + c / 128], 4 * (c % 128), x);
            } else if d / 128 == c / 128 {
                lemma_u32_at_splice_other(v1[b2 + c / 128], 4 * (c % 128), x, 4 * (d % 128));
            }
        }
    }
}


impl FAT {
    /// Number of clusters in `[lo, hi)` whose FAT1 entry is free.
    #[verifier::opaque]
    pub open spec fn count_free(&self, v: Seq<Seq<u8>>, lo: int, hi: int) -> nat
        decreases hi - lo,
    {
        if hi <= lo {
            0
        } else {
            self.count_free(v, lo, hi - 1) + if self.fat1(v, hi - 1) == FREE_CLUSTER {
                1nat
            } else {
                0nat
            }
        }
    }

    /// Clusters that are not free do not add to the count.
    pub proof fn lemma_count_free_skip(&self, v: Seq<Seq<u8>>, lo: int, a: int, b: int)
        requires
            lo <= a <= b,
            forall|k: int| a <= k < b ==> self.fat1(v, k) != FREE_CLUSTER,
        ensures
            self.count_free(v, lo, b) == self.count_free(v, lo, a),
        decreases b - a,
    {
        reveal(FAT::count_free);
        if b > a {
            self.lemma_count_free_skip(v, lo, a, b - 1);
        }
    }

    /// The count grows by one over a free cluster.
    pub proof fn lemma_count_free_step(&self, v: Seq<Seq<u8>>, lo: int, c: int)
        requires
            lo <= c,
            self.fat1(v, c) == FREE_CLUSTER,
        ensures
            self.count_free(v, lo, c + 1) == self.count_free(v, lo, c) + 1,
    {
        reveal(FAT::count_free);
    }

    /// A sequence of clusters linked one to the next in FAT1, the last one
    /// marked as the end, is the chain from its first cluster.
    #[verifier::rlimit(50)]
    #[verifier::spinoff_prover]
    pub proof fn lemma_chain_links(&self, v: Seq<Seq<u8>>, cs: Seq<u32>, i: int, fuel: nat)
        requires
            0 <= i < cs.len(),
            fuel >= cs.len() - i,
            forall|j: int| 0 <= j < cs.len() ==> 2 <= #[trigger] cs[j] < self.n_entry,
            forall|j: int| 0 <= j < cs.len() - 1 ==> self.fat1(v, #[trigger] cs[j] as int) == cs[j + 1],
            self.fat1(v, cs[cs.len() - 1] as int) == END_CLUSTER,
            self.n_entry <= BAD_CLUSTER,
        ensures
            self.chain(v, cs[i], fuel) == cs.subrange(i, cs.len() as int),
        decreases cs.len() - i,
    {
        let c = cs[i];
        self.lemma_chain_unfold(v, c, fuel);
        if i < cs.len() - 1 {
            let n = cs[i + 1];
            assert(self.fat1(v, c as int) == n);
            assert(n % 0x1000_0000 == n);
            assert(self.next_of(v, c as int) == n);
            assert(self.step(v, c) == Some(n));
            self.lemma_chain_links(v, cs, i + 1, (fuel - 1) as nat);
            assert(self.chain(v, c, fuel) == seq![c] + self.chain(v, n, (fuel - 1) as nat));
            assert(cs.subrange(i, cs.len() as int) =~= seq![c] + cs.subrange(i + 1, cs.len() as int));
        } else {
            assert(self.fat1(v, c as int) == END_CLUSTER);
            assert(self.next_of(v, c as int) == END_CLUSTER);
            assert(self.step(v, c) == None::<u32>);
            assert(self.chain(v, c, fuel) == seq![c] + Seq::<u32>::empty());
            assert(cs.subrange(i, cs.len() as int) =~= seq![c]);
        }
    }
}


impl FAT {
    /// Both tables agree between two volumes on every entry.
    pub open spec fn same_entries(&self, v1: Seq<Seq<u8>>, v2: Seq<Seq<u8>>) -> bool {
        forall|d: int|
            0 <= d < self.n_entry ==> #[trigger] self.fat1(v1, d) == self.fat1(v2, d) && self.fat2(v1, d)
                == self.fat2(v2, d)
    }
}


impl FAT {
    /// The two tables agree on every entry.
    pub open spec fn mirrored(&self, v: Seq<Seq<u8>>) -> bool {
        forall|d: int| 0 <= d < self.n_entry ==> #[trigger] self.fat1(v, d) == self.fat2(v, d)
    }
}


impl FAT {
    /// Chains depend on the table entries alone.
    pub proof fn lemma_chain_same(&self, v1: Seq<Seq<u8>>, v2: Seq<Seq<u8>>, c: u32, fuel: nat)
        requires
            self.same_entries(v1, v2),
        ensures
            self.chain(v1, c, fuel) == self.chain(v2, c, fuel),
        decreases fuel,
    {
        self.lemma_chain_unfold(v1, c, fuel);
        self.lemma_chain_unfold(v2, c, fuel);
        if fuel > 0 && c < self.n_entry {
            assert(self.fat1(v1, c as int) == self.fat1(v2, c as int));
            assert(self.step(v1, c) == self.step(v2, c));
            match self.step(v1, c) {
                None => {},
                Some(n) => self.lemma_chain_same(v1, v2, n, (fuel - 1) as nat),
            }
        }
    }
}

} // verus!
