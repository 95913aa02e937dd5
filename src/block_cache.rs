//! A bounded write-back cache of sectors in two pools: one for file data,
//! one for metadata (FATs, FS-info, directories).
//!
//! The cache is modelled by `view`: the sectors of the volume as they read
//! through the cache, cached lines laid over the device. Every operation
//! keeps `view` or changes exactly the bytes it writes; eviction and
//! write-back never change it.
use vstd::prelude::*;

use crate::block_dev::{sectors_ok, BlockDevice};
use crate::utils::splice;
use crate::BLOCK_SZ;

verus! {

/// Which pool a sector is cached in.
#[derive(Clone, Copy, Debug, PartialEq, Eq, Structural)]
pub enum Pool {
    /// File contents.
    Data,
    /// FATs, FS-info and directories.
    Info,
}

/// The pool that is not `p`.
pub open spec fn other_pool(p: Pool) -> Pool {
    match p {
        Pool::Data => Pool::Info,
        Pool::Info => Pool::Data,
    }
}

/// One cached sector.
pub struct CacheLine {
    pub sector: usize,
    pub data: Vec<u8>,
    pub dirty: bool,
    pub tick: u64,
}

/// Whether pool `lines` holds a line for sector `s`.
pub open spec fn pool_has(lines: Seq<CacheLine>, s: int) -> bool {
    exists|i: int| 0 <= i < lines.len() && lines[i].sector == s
}

/// The bytes of the line for sector `s` in pool `lines`.
pub open spec fn pool_get(lines: Seq<CacheLine>, s: int) -> Seq<u8> {
    lines[choose|i: int| 0 <= i < lines.len() && lines[i].sector == s].data@
}

/// A pool: at most `cap` lines, one per sector, each a whole sector of the
/// volume that starts at `start`, and each clean line equal to the device.
pub open spec fn pool_ok(lines: Seq<CacheLine>, dev: Seq<Seq<u8>>, start: int, cap: int) -> bool {
    &&& lines.len() <= cap
    &&& forall|i: int|
        0 <= i < lines.len() ==> {
            &&& (#[trigger] lines[i]).data@.len() == BLOCK_SZ
            &&& start + lines[i].sector < dev.len()
            &&& !lines[i].dirty ==> lines[i].data@ == dev[start + lines[i].sector]
        }
    &&& forall|i: int, j: int|
        0 <= i < lines.len() && 0 <= j < lines.len() && i != j ==> (#[trigger] lines[i]).sector
            != (#[trigger] lines[j]).sector
}

/// No sector is cached in both pools.
pub open spec fn pools_disjoint(a: Seq<CacheLine>, b: Seq<CacheLine>) -> bool {
    forall|i: int, j: int|
        0 <= i < a.len() && 0 <= j < b.len() ==> (#[trigger] a[i]).sector != (#[trigger] b[j]).sector
}

/// Absolute sector `x` as it reads through the two pools.
pub open spec fn abs_at(a: Seq<CacheLine>, b: Seq<CacheLine>, dev: Seq<Seq<u8>>, start: int, x: int) -> Seq<u8> {
    if x >= start && pool_has(a, x - start) {
        pool_get(a, x - start)
    } else if x >= start && pool_has(b, x - start) {
        pool_get(b, x - start)
    } else {
        dev[x]
    }
}

/// All absolute sectors as they read through the two pools.
pub open spec fn abs_of(a: Seq<CacheLine>, b: Seq<CacheLine>, dev: Seq<Seq<u8>>, start: int) -> Seq<Seq<u8>> {
    Seq::new(dev.len(), |x: int| abs_at(a, b, dev, start, x))
}

proof fn lemma_get_unique(lines: Seq<CacheLine>, dev: Seq<Seq<u8>>, start: int, cap: int, i: int)
    requires
        pool_ok(lines, dev, start, cap),
        0 <= i < lines.len(),
    ensures
        pool_has(lines, lines[i].sector as int),
        pool_get(lines, lines[i].sector as int) == lines[i].data@,
{
    let s = lines[i].sector as int;
    assert(pool_has(lines, s));
    let k = choose|k: int| 0 <= k < lines.len() && lines[k].sector == s;
    if k != i {
        assert(lines[k].sector != lines[i].sector);
    }
}

proof fn lemma_abs_swap(a: Seq<CacheLine>, b: Seq<CacheLine>, dev: Seq<Seq<u8>>, start: int)
    requires
        pools_disjoint(a, b),
    ensures
        abs_of(a, b, dev, start) == abs_of(b, a, dev, start),
{
    assert forall|x: int| 0 <= x < dev.len() implies abs_at(a, b, dev, start, x) == abs_at(b, a, dev, start, x) by {
        if x >= start && pool_has(a, x - start) && pool_has(b, x - start) {
            let i = choose|i: int| 0 <= i < a.len() && a[i].sector == x - start;
            let j = choose|j: int| 0 <= j < b.len() && b[j].sector == x - start;
            assert(a[i].sector != b[j].sector);
        }
    }
    assert(abs_of(a, b, dev, start) =~= abs_of(b, a, dev, start));
}

/// Index of the line for `sector`, if the pool has one.
fn find_line(lines: &Vec<CacheLine>, sector: usize) -> (r: Option<usize>)
    ensures
        match r {
            Some(i) => i < lines@.len() && lines@[i as int].sector == sector,
            None => !pool_has(lines@, sector as int),
        },
{
    let mut i: usize = 0;
    while i < lines.len()
        invariant
            i <= lines@.len(),
            forall|k: int| 0 <= k < i ==> lines@[k].sector != sector,
        decreases lines@.len() - i,
    {
        if lines[i].sector == sector {
            return Some(i);
        }
        i += 1;
    }
    None
}

/// Index of the least recently used line.
fn lru_line(lines: &Vec<CacheLine>) -> (r: usize)
    requires
        lines@.len() > 0,
    ensures
        r < lines@.len(),
        forall|k: int| 0 <= k < lines@.len() ==> lines@[r as int].tick <= lines@[k].tick,
{
    let mut best: usize = 0;
    let mut i: usize = 1;
    while i < lines.len()
        invariant
            1 <= i <= lines@.len(),
            best < i,
            forall|k: int| 0 <= k < i ==> lines@[best as int].tick <= lines@[k].tick,
        decreases lines@.len() - i,
    {
        if lines[i].tick < lines[best].tick {
            best = i;
        }
        i += 1;
    }
    best
}

/// A write-back sector cache in front of a block device.
pub struct BlockCache<D: BlockDevice> {
    device: D,
    start_sec: usize,
    data_pool: Vec<CacheLine>,
    info_pool: Vec<CacheLine>,
    capacity: usize,
    tick: u64,
}

impl<D: BlockDevice> BlockCache<D> {
    /// Internal consistency: both pools well formed and disjoint.
    pub closed spec fn wf(&self) -> bool {
        &&& sectors_ok(self.device.blocks())
        &&& self.device.blocks().len() <= usize::MAX
        &&& self.start_sec <= self.device.blocks().len()
        &&& self.capacity >= 1
        &&& pool_ok(self.data_pool@, self.device.blocks(), self.start_sec as int, self.capacity as int)
        &&& pool_ok(self.info_pool@, self.device.blocks(), self.start_sec as int, self.capacity as int)
        &&& pools_disjoint(self.data_pool@, self.info_pool@)
    }

    /// Every sector of the device, as it reads through the cache.
    pub closed spec fn absolute(&self) -> Seq<Seq<u8>> {
        abs_of(self.data_pool@, self.info_pool@, self.device.blocks(), self.start_sec as int)
    }

    /// Sector offset of the volume on the device.
    pub closed spec fn start(&self) -> int {
        self.start_sec as int
    }

    /// The device underneath.
    pub closed spec fn dev(&self) -> D {
        self.device
    }

    /// Lines per pool.
    pub closed spec fn cap(&self) -> int {
        self.capacity as int
    }

    /// The volume's sectors, numbered from the start offset, as they read
    /// through the cache.
    pub open spec fn view(&self) -> Seq<Seq<u8>> {
        self.absolute().subrange(self.start(), self.absolute().len() as int)
    }

    /// At most one line per sector in each pool, and no sector in both.
    pub closed spec fn one_line_per_sector(&self) -> bool {
        &&& forall|i: int, j: int|
            0 <= i < self.data_pool@.len() && 0 <= j < self.data_pool@.len() && i != j
                ==> self.data_pool@[i].sector != self.data_pool@[j].sector
        &&& forall|i: int, j: int|
            0 <= i < self.info_pool@.len() && 0 <= j < self.info_pool@.len() && i != j
                ==> self.info_pool@[i].sector != self.info_pool@[j].sector
        &&& pools_disjoint(self.data_pool@, self.info_pool@)
    }

    /// Facts that hold of every well-formed cache.
    pub proof fn lemma_wf(&self)
        requires
            self.wf(),
        ensures
            sectors_ok(self.view()),
            sectors_ok(self.absolute()),
            self.absolute().len() == self.dev().blocks().len(),
            self.absolute().len() <= usize::MAX,
            0 <= self.start() <= self.absolute().len(),
            self.one_line_per_sector(),
    {
        let a = self.absolute();
        assert forall|x: int| 0 <= x < a.len() implies #[trigger] a[x].len() == BLOCK_SZ by {
            let s = x - self.start_sec;
            if x >= self.start_sec && pool_has(self.data_pool@, s) {
                let i = choose|i: int| 0 <= i < self.data_pool@.len() && self.data_pool@[i].sector == s;
                assert(self.data_pool@[i].data@.len() == BLOCK_SZ);
            } else if x >= self.start_sec && pool_has(self.info_pool@, s) {
                let i = choose|i: int| 0 <= i < self.info_pool@.len() && self.info_pool@[i].sector == s;
                assert(self.info_pool@[i].data@.len() == BLOCK_SZ);
            }
        }
    }

    /// An empty cache of `capacity` lines per pool over `device`, with no
    /// start offset.
    pub fn new(device: D, capacity: usize) -> (r: Self)
        requires
            sectors_ok(device.blocks()),
            capacity >= 1,
        ensures
            r.wf(),
            r.dev() == device,
            r.start() == 0,
            r.cap() == capacity,
            r.absolute() == device.blocks(),
            r.view() == device.blocks(),
    {
        let _n = device.num_blocks();
        let r = BlockCache {
            device,
            start_sec: 0,
            data_pool: Vec::new(),
            info_pool: Vec::new(),
            capacity,
            tick: 0,
        };
        assert(r.absolute() =~= device.blocks());
        assert(r.view() =~= device.blocks());
        r
    }

    /// Number of sectors of the volume.
    pub fn num_sectors(&self) -> (r: usize)
        requires
            self.wf(),
        ensures
            r == self.view().len(),
    {
        self.device.num_blocks() - self.start_sec
    }

    /// The device underneath, as it is: dirty lines are not in it yet.
    pub fn device(&self) -> (r: &D)
        ensures
            *r == self.dev(),
    {
        &self.device
    }

    fn next_tick(&mut self) -> (r: u64)
        ensures
            *final(self) == (BlockCache { tick: final(self).tick, ..*old(self) }),
    {
        if self.tick < u64::MAX {
            self.tick = self.tick + 1;
        }
        self.tick
    }
}

} // verus!

verus! {

/// One line per sector.
pub open spec fn sectors_unique(lines: Seq<CacheLine>) -> bool {
    forall|i: int, j: int|
        0 <= i < lines.len() && 0 <= j < lines.len() && i != j ==> (#[trigger] lines[i]).sector
            != (#[trigger] lines[j]).sector
}

proof fn lemma_pool_update(lines: Seq<CacheLine>, i: int, l: CacheLine)
    requires
        0 <= i < lines.len(),
        sectors_unique(lines),
        sectors_unique(lines.update(i, l)),
    ensures
        forall|s: int|
            #[trigger] pool_has(lines.update(i, l), s) == (s == l.sector || (pool_has(lines, s)
                && s != lines[i].sector)),
        forall|s: int|
            pool_has(lines.update(i, l), s) ==> #[trigger] pool_get(lines.update(i, l), s) == if s
                == l.sector {
                l.data@
            } else {
                pool_get(lines, s)
            },
{
    let n = lines.update(i, l);
    assert forall|s: int| #[trigger] pool_has(n, s) == (s == l.sector || (pool_has(lines, s) && s != lines[i].sector)) by {
        if s == l.sector {
            assert(n[i].sector == s);
        } else if pool_has(lines, s) && s != lines[i].sector {
            let k = choose|k: int| 0 <= k < lines.len() && lines[k].sector == s;
            assert(n[k].sector == s);
        }
        if pool_has(n, s) && s != l.sector {
            let k = choose|k: int| 0 <= k < n.len() && n[k].sector == s;
            assert(k != i);
            assert(lines[k].sector == s);
        }
    }
    assert forall|s: int| pool_has(n, s) implies #[trigger] pool_get(n, s) == if s == l.sector {
        l.data@
    } else {
        pool_get(lines, s)
    } by {
        let k = choose|k: int| 0 <= k < n.len() && n[k].sector == s;
        if s == l.sector {
            assert(n[i].sector == s);
            if k != i {
                assert(n[k].sector != n[i].sector);
            }
        } else {
            assert(k != i);
            let m = choose|m: int| 0 <= m < lines.len() && lines[m].sector == s;
            assert(lines[k].sector == s);
            if m != k {
                assert(lines[m].sector != lines[k].sector);
            }
        }
    }
}

proof fn lemma_pool_remove(lines: Seq<CacheLine>, j: int)
    requires
        0 <= j < lines.len(),
        sectors_unique(lines),
    ensures
        sectors_unique(lines.remove(j)),
        forall|s: int|
            #[trigger] pool_has(lines.remove(j), s) == (pool_has(lines, s) && s != lines[j].sector),
        forall|s: int|
            pool_has(lines.remove(j), s) ==> #[trigger] pool_get(lines.remove(j), s) == pool_get(
                lines,
                s,
            ),
        forall|k: int| 0 <= k < lines.remove(j).len() ==> #[trigger] lines.remove(j)[k] == lines[if k < j { k } else { k + 1 }],
{
    let n = lines.remove(j);
    assert forall|k: int| 0 <= k < n.len() implies #[trigger] n[k] == lines[if k < j { k } else { k + 1 }] by {}
    assert forall|a: int, b: int| 0 <= a < n.len() && 0 <= b < n.len() && a != b implies (#[trigger] n[a]).sector != (#[trigger] n[b]).sector by {
        let a2 = if a < j { a } else { a + 1 };
        let b2 = if b < j { b } else { b + 1 };
        assert(n[a] == lines[a2] && n[b] == lines[b2]);
    }
    assert forall|s: int| #[trigger] pool_has(n, s) == (pool_has(lines, s) && s != lines[j].sector) by {
        if pool_has(n, s) {
            let k = choose|k: int| 0 <= k < n.len() && n[k].sector == s;
            let k2 = if k < j { k } else { k + 1 };
            assert(lines[k2].sector == s);
            assert(k2 != j);
        }
        if pool_has(lines, s) && s != lines[j].sector {
            let k = choose|k: int| 0 <= k < lines.len() && lines[k].sector == s;
            assert(k != j);
            let k2 = if k < j { k } else { k - 1 };
            assert(n[k2] == lines[k]);
        }
    }
    assert forall|s: int| pool_has(n, s) implies #[trigger] pool_get(n, s) == pool_get(lines, s) by {
        let k = choose|k: int| 0 <= k < n.len() && n[k].sector == s;
        let k2 = if k < j { k } else { k + 1 };
        let m = choose|m: int| 0 <= m < lines.len() && lines[m].sector == s;
        assert(lines[k2].sector == s);
        if m != k2 {
            assert(lines[m].sector != lines[k2].sector);
        }
    }
}

proof fn lemma_pool_push(lines: Seq<CacheLine>, l: CacheLine)
    requires
        sectors_unique(lines),
        !pool_has(lines, l.sector as int),
    ensures
        sectors_unique(lines.push(l)),
        forall|s: int| #[trigger] pool_has(lines.push(l), s) == (pool_has(lines, s) || s == l.sector),
        forall|s: int|
            pool_has(lines.push(l), s) ==> #[trigger] pool_get(lines.push(l), s) == if s == l.sector {
                l.data@
            } else {
                pool_get(lines, s)
            },
{
    let n = lines.push(l);
    let e = lines.len() as int;
    assert forall|a: int, b: int| 0 <= a < n.len() && 0 <= b < n.len() && a != b implies (#[trigger] n[a]).sector != (#[trigger] n[b]).sector by {
        if a == e {
            assert(lines[b].sector != l.sector);
        } else if b == e {
            assert(lines[a].sector != l.sector);
        } else {
            assert(n[a] == lines[a] && n[b] == lines[b]);
        }
    }
    assert forall|s: int| #[trigger] pool_has(n, s) == (pool_has(lines, s) || s == l.sector) by {
        if pool_has(n, s) && s != l.sector {
            let k = choose|k: int| 0 <= k < n.len() && n[k].sector == s;
            assert(lines[k].sector == s);
        }
        if pool_has(lines, s) {
            let k = choose|k: int| 0 <= k < lines.len() && lines[k].sector == s;
            assert(n[k].sector == s);
        }
        if s == l.sector {
            assert(n[e].sector == s);
        }
    }
    assert forall|s: int| pool_has(n, s) implies #[trigger] pool_get(n, s) == if s == l.sector {
        l.data@
    } else {
        pool_get(lines, s)
    } by {
        let k = choose|k: int| 0 <= k < n.len() && n[k].sector == s;
        if s == l.sector {
            if k != e {
                assert(lines[k].sector == s);
            }
        } else {
            assert(k != e);
            let m = choose|m: int| 0 <= m < lines.len() && lines[m].sector == s;
            if m != k {
                assert(lines[m].sector != lines[k].sector);
            }
        }
    }
}

} // verus!

verus! {

/// The state of two pools over a device is consistent.
pub open spec fn cache_ok(a: Seq<CacheLine>, b: Seq<CacheLine>, dev: Seq<Seq<u8>>, start: int, cap: int) -> bool {
    &&& sectors_ok(dev)
    &&& dev.len() <= usize::MAX
    &&& 0 <= start <= dev.len()
    &&& cap >= 1
    &&& pool_ok(a, dev, start, cap)
    &&& pool_ok(b, dev, start, cap)
    &&& pools_disjoint(a, b)
}

/// Brings `sector` into pool `this`, evicting its least recently used line
/// when it is full and moving the sector out of `other` if it is there.
/// What the sectors read as does not change.
fn fetch<D: BlockDevice>(
    this: &mut Vec<CacheLine>,
    other: &mut Vec<CacheLine>,
    dev: &mut D,
    start: usize,
    cap: usize,
    tick: u64,
    sector: usize,
) -> (idx: usize)
    requires
        cache_ok(old(this)@, old(other)@, old(dev).blocks(), start as int, cap as int),
        start + sector < old(dev).blocks().len(),
    ensures
        cache_ok(final(this)@, final(other)@, final(dev).blocks(), start as int, cap as int),
        final(dev).blocks().len() == old(dev).blocks().len(),
        abs_of(final(this)@, final(other)@, final(dev).blocks(), start as int) == abs_of(
            old(this)@,
            old(other)@,
            old(dev).blocks(),
            start as int,
        ),
        idx < final(this)@.len(),
        final(this)@[idx as int].sector == sector,
{
    let ghost abs0 = abs_of(this@, other@, dev.blocks(), start as int);
    let ghost st = start as int;
    let ghost s = sector as int;
    match find_line(this, sector) {
        Some(i) => {
            let ghost before = this@;
            let mut line = this.remove(i);
            line.tick = tick;
            this.insert(i, line);
            proof {
                assert(this@ =~= before.update(i as int, this@[i as int]));
                lemma_pool_update(before, i as int, this@[i as int]);
                assert(abs_of(this@, other@, dev.blocks(), st) =~= abs0);
            }
            return i;
        },
        None => {},
    }
    match find_line(other, sector) {
        Some(j) => {
            let ghost before = other@;
            let ghost dev0 = dev.blocks();
            proof {
                lemma_pool_remove(before, j as int);
            }
            let line = other.remove(j);
            if line.dirty {
                dev.write_block(start + sector, line.data.as_slice());
            }
            proof {
                let d = dev.blocks();
                lemma_get_unique(before, dev0, st, cap as int, j as int);
                assert(d =~= if line.dirty { dev0.update(st + s, line.data@) } else { dev0 });
                assert(d[st + s] == line.data@);
                assert forall|k: int| 0 <= k < this@.len() implies this@[k].sector != sector by {
                    assert(this@[k].sector != before[j as int].sector);
                }
                assert forall|k: int| 0 <= k < other@.len() implies other@[k].sector != sector by {}
                assert(abs_of(this@, other@, d, st) =~= abs0) by {
                    assert forall|x: int| 0 <= x < d.len() implies abs_at(this@, other@, d, st, x) == abs0[x] by {
                        if x == st + s {
                            assert(!pool_has(this@, s));
                        }
                    }
                }
            }
        },
        None => {},
    }
    let ghost abs1 = abs_of(this@, other@, dev.blocks(), st);
    assert(abs1 == abs0);
    assert(!pool_has(this@, s));
    assert(!pool_has(other@, s));
    if this.len() >= cap {
        let i = lru_line(this);
        let ghost before = this@;
        let ghost dev0 = dev.blocks();
        let old_line = this.remove(i);
        let old_sector = old_line.sector;
        if old_line.dirty {
            dev.write_block(start + old_sector, old_line.data.as_slice());
        }
        let mut buf: Vec<u8> = Vec::new();
        dev.read_block(start + sector, &mut buf);
        let line = CacheLine { sector, data: buf, dirty: false, tick };
        this.insert(i, line);
        proof {
            let d = dev.blocks();
            let os = old_sector as int;
            let l = this@[i as int];
            assert(this@ =~= before.update(i as int, l));
            lemma_get_unique(before, dev0, st, cap as int, i as int);
            assert(d =~= if old_line.dirty { dev0.update(st + os, old_line.data@) } else { dev0 });
            assert(os != s);
            assert forall|k: int| 0 <= k < other@.len() implies other@[k].sector != old_sector by {
                assert(other@[k].sector != before[i as int].sector);
            }
            assert(sectors_unique(this@)) by {
                assert forall|a: int, b: int| 0 <= a < this@.len() && 0 <= b < this@.len() && a != b implies (#[trigger] this@[a]).sector != (#[trigger] this@[b]).sector by {
                    if a == i {
                        assert(before[b].sector != s);
                    } else if b == i {
                        assert(before[a].sector != s);
                    } else {
                        assert(before[a].sector != before[b].sector);
                    }
                }
            }
            lemma_pool_update(before, i as int, l);
            assert forall|k: int| 0 <= k < this@.len() implies {
                &&& (#[trigger] this@[k]).data@.len() == BLOCK_SZ
                &&& st + this@[k].sector < d.len()
                &&& !this@[k].dirty ==> this@[k].data@ == d[st + this@[k].sector]
            } by {
                if k != i {
                    assert(before[k].sector != before[i as int].sector);
                }
            }
            assert forall|k: int| 0 <= k < other@.len() implies {
                &&& (#[trigger] other@[k]).data@.len() == BLOCK_SZ
                &&& st + other@[k].sector < d.len()
                &&& !other@[k].dirty ==> other@[k].data@ == d[st + other@[k].sector]
            } by {
                assert(other@[k].sector != before[i as int].sector);
            }
            assert(pools_disjoint(this@, other@)) by {
                assert forall|a: int, b: int| 0 <= a < this@.len() && 0 <= b < other@.len() implies (#[trigger] this@[a]).sector != (#[trigger] other@[b]).sector by {
                    if a != i {
                        assert(before[a].sector != other@[b].sector);
                    }
                }
            }
            assert(abs_of(this@, other@, d, st) =~= abs0) by {
                assert forall|x: int| 0 <= x < d.len() implies abs_at(this@, other@, d, st, x) == abs1[x] by {
                    if x == st + os {
                        assert(!pool_has(other@, os));
                    }
                }
            }
        }
        i
    } else {
        let mut buf: Vec<u8> = Vec::new();
        dev.read_block(start + sector, &mut buf);
        let line = CacheLine { sector, data: buf, dirty: false, tick };
        let ghost before = this@;
        this.push(line);
        proof {
            let d = dev.blocks();
            lemma_pool_push(before, this@[before.len() as int]);
            assert(this@ =~= before.push(this@[before.len() as int]));
            assert(pools_disjoint(this@, other@)) by {
                assert forall|a: int, b: int| 0 <= a < this@.len() && 0 <= b < other@.len() implies (#[trigger] this@[a]).sector != (#[trigger] other@[b]).sector by {
                    if a < before.len() {
                        assert(before[a].sector != other@[b].sector);
                    }
                }
            }
            assert(abs_of(this@, other@, d, st) =~= abs0);
        }
        this.len() - 1
    }
}

} // verus!

verus! {

/// Writes every dirty line of `this` to the device and marks it clean.
fn flush_pool<D: BlockDevice>(
    this: &mut Vec<CacheLine>,
    other: &Vec<CacheLine>,
    dev: &mut D,
    start: usize,
    cap: usize,
)
    requires
        cache_ok(old(this)@, other@, old(dev).blocks(), start as int, cap as int),
    ensures
        cache_ok(final(this)@, other@, final(dev).blocks(), start as int, cap as int),
        final(dev).blocks().len() == old(dev).blocks().len(),
        abs_of(final(this)@, other@, final(dev).blocks(), start as int) == abs_of(
            old(this)@,
            other@,
            old(dev).blocks(),
            start as int,
        ),
        forall|k: int| 0 <= k < final(this)@.len() ==> !(#[trigger] final(this)@[k]).dirty,
        forall|k: int| 0 <= k < other@.len() ==> #[trigger] other@[k] == other@[k],
{
    let ghost st = start as int;
    let ghost abs0 = abs_of(this@, other@, dev.blocks(), st);
    let mut i: usize = 0;
    while i < this.len()
        invariant
            i <= this@.len(),
            st == start,
            cache_ok(this@, other@, dev.blocks(), st, cap as int),
            dev.blocks().len() == abs0.len(),
            abs_of(this@, other@, dev.blocks(), st) == abs0,
            forall|k: int| 0 <= k < i ==> !(#[trigger] this@[k]).dirty,
        decreases this@.len() - i,
    {
        if this[i].dirty {
            let ghost before = this@;
            let ghost dev0 = dev.blocks();
            let s = this[i].sector;
            assert(st + this@[i as int].sector < dev.blocks().len());
            let id = start + s;
            let bytes = this[i].data.as_slice();
            dev.write_block(id, bytes);
            let mut line = this.remove(i);
            line.dirty = false;
            this.insert(i, line);
            proof {
                let d = dev.blocks();
                let l = this@[i as int];
                assert(this@ =~= before.update(i as int, l));
                lemma_pool_update(before, i as int, l);
                lemma_get_unique(before, dev0, st, cap as int, i as int);
                assert forall|k: int| 0 <= k < this@.len() implies {
                    &&& (#[trigger] this@[k]).data@.len() == BLOCK_SZ
                    &&& st + this@[k].sector < d.len()
                    &&& !this@[k].dirty ==> this@[k].data@ == d[st + this@[k].sector]
                } by {
                    if k != i {
                        assert(before[k].sector != before[i as int].sector);
                    }
                }
                assert forall|k: int| 0 <= k < other@.len() implies {
                    &&& (#[trigger] other@[k]).data@.len() == BLOCK_SZ
                    &&& st + other@[k].sector < d.len()
                    &&& !other@[k].dirty ==> other@[k].data@ == d[st + other@[k].sector]
                } by {
                    assert(other@[k].sector != before[i as int].sector);
                }
                assert(pools_disjoint(this@, other@)) by {
                    assert forall|a: int, b: int| 0 <= a < this@.len() && 0 <= b < other@.len() implies (#[trigger] this@[a]).sector != (#[trigger] other@[b]).sector by {
                        assert(before[a].sector != other@[b].sector);
                    }
                }
                assert(abs_of(this@, other@, d, st) =~= abs0);
            }
        }
        i += 1;
    }
}

impl<D: BlockDevice> BlockCache<D> {
    /// The lines of one pool.
    pub closed spec fn lines(&self, pool: Pool) -> Seq<CacheLine> {
        match pool {
            Pool::Data => self.data_pool@,
            Pool::Info => self.info_pool@,
        }
    }

    /// Whether pool `pool` holds a line for `sector`.
    pub closed spec fn cached_in(&self, sector: int, pool: Pool) -> bool {
        pool_has(self.lines(pool), sector)
    }

    proof fn lemma_cached_once(&self, pool: Pool, idx: int)
        requires
            self.wf(),
            0 <= idx < self.lines(pool).len(),
        ensures
            self.cached_in(self.lines(pool)[idx].sector as int, pool),
            !self.cached_in(self.lines(pool)[idx].sector as int, other_pool(pool)),
    {
        let s = self.lines(pool)[idx].sector as int;
        assert(self.lines(pool)[idx].sector == s);
        if self.cached_in(s, other_pool(pool)) {
            let o = self.lines(other_pool(pool));
            let j = choose|j: int| 0 <= j < o.len() && o[j].sector == s;
            match pool {
                Pool::Data => assert(self.data_pool@[idx].sector != self.info_pool@[j].sector),
                Pool::Info => assert(self.data_pool@[j].sector != self.info_pool@[idx].sector),
            }
        }
    }

    /// Whether no line holds data that the device lacks.
    pub closed spec fn clean(&self) -> bool {
        &&& forall|k: int| 0 <= k < self.data_pool@.len() ==> !(#[trigger] self.data_pool@[k]).dirty
        &&& forall|k: int| 0 <= k < self.info_pool@.len() ==> !(#[trigger] self.info_pool@[k]).dirty
    }

    /// Same device size, offset and capacity.
    pub open spec fn same_shape(&self, other: &Self) -> bool {
        &&& self.dev().blocks().len() == other.dev().blocks().len()
        &&& self.start() == other.start()
        &&& self.cap() == other.cap()
    }

    proof fn lemma_read_line(&self, pool: Pool, idx: int)
        requires
            self.wf(),
            0 <= idx < self.lines(pool).len(),
        ensures
            self.absolute()[self.start() + self.lines(pool)[idx].sector] == self.lines(pool)[idx].data@,
            self.start() + self.lines(pool)[idx].sector < self.absolute().len(),
    {
        let st = self.start_sec as int;
        let dev = self.device.blocks();
        match pool {
            Pool::Data => {
                lemma_get_unique(self.data_pool@, dev, st, self.capacity as int, idx);
            },
            Pool::Info => {
                lemma_get_unique(self.info_pool@, dev, st, self.capacity as int, idx);
                let s = self.info_pool@[idx].sector as int;
                assert(!pool_has(self.data_pool@, s)) by {
                    if pool_has(self.data_pool@, s) {
                        let k = choose|k: int| 0 <= k < self.data_pool@.len() && self.data_pool@[k].sector == s;
                        assert(self.data_pool@[k].sector != self.info_pool@[idx].sector);
                    }
                }
            },
        }
    }

    /// Brings `sector` into `pool`; the contents do not change.
    fn touch(&mut self, sector: usize, pool: Pool) -> (idx: usize)
        requires
            old(self).wf(),
            sector < old(self).view().len(),
        ensures
            final(self).wf(),
            final(self).same_shape(old(self)),
            final(self).absolute() == old(self).absolute(),
            idx < final(self).lines(pool).len(),
            final(self).lines(pool)[idx as int].sector == sector,
    {
        proof {
            self.lemma_wf();
        }
        let tick = self.next_tick();
        let ghost st = self.start_sec as int;
        match pool {
            Pool::Data => fetch(
                &mut self.data_pool,
                &mut self.info_pool,
                &mut self.device,
                self.start_sec,
                self.capacity,
                tick,
                sector,
            ),
            Pool::Info => {
                proof {
                    lemma_abs_swap(self.data_pool@, self.info_pool@, self.device.blocks(), st);
                }
                let i = fetch(
                    &mut self.info_pool,
                    &mut self.data_pool,
                    &mut self.device,
                    self.start_sec,
                    self.capacity,
                    tick,
                    sector,
                );
                proof {
                    lemma_abs_swap(self.info_pool@, self.data_pool@, self.device.blocks(), st);
                    assert(pools_disjoint(self.data_pool@, self.info_pool@)) by {
                        assert forall|a: int, b: int| 0 <= a < self.data_pool@.len() && 0 <= b < self.info_pool@.len() implies (#[trigger] self.data_pool@[a]).sector != (#[trigger] self.info_pool@[b]).sector by {
                            assert(self.info_pool@[b].sector != self.data_pool@[a].sector);
                        }
                    }
                }
                i
            },
        }
    }

    /// Reads `len` bytes at `offset` of `sector` through `pool`.
    pub fn read(&mut self, sector: usize, offset: usize, len: usize, pool: Pool) -> (r: Vec<u8>)
        requires
            old(self).wf(),
            sector < old(self).view().len(),
            offset + len <= BLOCK_SZ,
        ensures
            final(self).wf(),
            final(self).same_shape(old(self)),
            final(self).absolute() == old(self).absolute(),
            final(self).view() == old(self).view(),
            r@ == old(self).view()[sector as int].subrange(offset as int, offset + len),
            final(self).cached_in(sector as int, pool),
            !final(self).cached_in(sector as int, other_pool(pool)),
    {
        let idx = self.touch(sector, pool);
        proof {
            self.lemma_read_line(pool, idx as int);
            self.lemma_wf();
            self.lemma_cached_once(pool, idx as int);
        }
        let line_data: &Vec<u8> = match pool {
            Pool::Data => &self.data_pool[idx].data,
            Pool::Info => &self.info_pool[idx].data,
        };
        let mut r: Vec<u8> = Vec::new();
        let mut k: usize = 0;
        while k < len
            invariant
                k <= len,
                offset + len <= BLOCK_SZ,
                line_data@.len() == BLOCK_SZ,
                r@ == line_data@.subrange(offset as int, offset + k),
            decreases len - k,
        {
            r.push(line_data[offset + k]);
            assert(r@ =~= line_data@.subrange(offset as int, offset + k + 1));
            k += 1;
        }
        r
    }

    /// Writes `data` at `offset` of `sector` through `pool`.
    pub fn write(&mut self, sector: usize, offset: usize, data: &[u8], pool: Pool)
        requires
            old(self).wf(),
            sector < old(self).view().len(),
            offset + data@.len() <= BLOCK_SZ,
        ensures
            final(self).wf(),
            final(self).same_shape(old(self)),
            final(self).view() == old(self).view().update(
                sector as int,
                splice(old(self).view()[sector as int], offset as int, data@),
            ),
            final(self).absolute() == old(self).absolute().update(
                old(self).start() + sector,
                splice(old(self).view()[sector as int], offset as int, data@),
            ),
            final(self).cached_in(sector as int, pool),
            !final(self).cached_in(sector as int, other_pool(pool)),
    {
        let ghost abs0 = self.absolute();
        let ghost st = self.start_sec as int;
        let idx = self.touch(sector, pool);
        proof {
            self.lemma_read_line(pool, idx as int);
            self.lemma_wf();
        }
        let ghost dev = self.device.blocks();
        let ghost before = self.lines(pool);
        let ghost d1 = self.data_pool@;
        let ghost i1 = self.info_pool@;
        let mut line = match pool {
            Pool::Data => self.data_pool.remove(idx),
            Pool::Info => self.info_pool.remove(idx),
        };
        let ghost old_data = line.data@;
        let ghost old_line = line;
        let mut k: usize = 0;
        while k < data.len()
            invariant
                k <= data@.len(),
                line.sector == old_line.sector,
                old_line == before[idx as int],
                offset + data@.len() <= BLOCK_SZ,
                old_data.len() == BLOCK_SZ,
                line.data@.len() == BLOCK_SZ,
                forall|p: int|
                    0 <= p < BLOCK_SZ ==> #[trigger] line.data@[p] == if offset <= p < offset + k {
                        data@[p - offset]
                    } else {
                        old_data[p]
                    },
            decreases data@.len() - k,
        {
            line.data.set(offset + k, data[k]);
            k += 1;
        }
        line.dirty = true;
        let ghost new_data = splice(old_data, offset as int, data@);
        assert(line.data@ =~= new_data);
        match pool {
            Pool::Data => self.data_pool.insert(idx, line),
            Pool::Info => self.info_pool.insert(idx, line),
        }
        proof {
            let l = self.lines(pool)[idx as int];
            assert(l.sector == before[idx as int].sector);
            assert(self.lines(pool) =~= before.update(idx as int, l));
            assert(sectors_unique(before));
            assert(sectors_unique(before.update(idx as int, l))) by {
                assert forall|a: int, b: int| 0 <= a < before.len() && 0 <= b < before.len() && a != b implies (#[trigger] before.update(idx as int, l)[a]).sector != (#[trigger] before.update(idx as int, l)[b]).sector by {
                    assert(before[a].sector != before[b].sector);
                }
            }
            lemma_pool_update(before, idx as int, l);
            assert(self.data_pool@.len() == d1.len());
            assert(self.info_pool@.len() == i1.len());
            assert(forall|k: int| 0 <= k < d1.len() ==> #[trigger] self.data_pool@[k].sector == d1[k].sector);
            assert(forall|k: int| 0 <= k < i1.len() ==> #[trigger] self.info_pool@[k].sector == i1[k].sector);
            assert(pools_disjoint(self.data_pool@, self.info_pool@)) by {
                assert forall|a: int, b: int| 0 <= a < self.data_pool@.len() && 0 <= b < self.info_pool@.len() implies (#[trigger] self.data_pool@[a]).sector != (#[trigger] self.info_pool@[b]).sector by {
                    assert(d1[a].sector != i1[b].sector);
                }
            }
            let want = abs0.update(st + sector, new_data);
            assert(self.absolute() =~= want) by {
                assert forall|x: int| 0 <= x < want.len() implies #[trigger] self.absolute()[x] == want[x] by {
                    if x == st + sector {
                        match pool {
                            Pool::Data => {},
                            Pool::Info => {
                                assert(!pool_has(self.data_pool@, sector as int)) by {
                                    if pool_has(self.data_pool@, sector as int) {
                                        let q = choose|q: int| 0 <= q < self.data_pool@.len() && self.data_pool@[q].sector == sector;
                                        assert(self.data_pool@[q].sector != self.info_pool@[idx as int].sector);
                                    }
                                }
                            },
                        }
                    }
                }
            }
            assert(self.view() =~= old(self).view().update(sector as int, new_data));
            self.lemma_cached_once(pool, idx as int);
        }
    }

    /// Writes every dirty line to the device.
    pub fn write_back(&mut self)
        requires
            old(self).wf(),
        ensures
            final(self).wf(),
            final(self).clean(),
            final(self).same_shape(old(self)),
            final(self).absolute() == old(self).absolute(),
            final(self).view() == old(self).view(),
            final(self).dev().blocks() == old(self).absolute(),
    {
        let ghost st = self.start_sec as int;
        let ghost abs0 = self.absolute();
        flush_pool(&mut self.data_pool, &self.info_pool, &mut self.device, self.start_sec, self.capacity);
        proof {
            lemma_abs_swap(self.data_pool@, self.info_pool@, self.device.blocks(), st);
        }
        let ghost keep = self.data_pool@;
        flush_pool(&mut self.info_pool, &self.data_pool, &mut self.device, self.start_sec, self.capacity);
        proof {
            lemma_abs_swap(self.info_pool@, self.data_pool@, self.device.blocks(), st);
            assert(pools_disjoint(self.data_pool@, self.info_pool@)) by {
                assert forall|a: int, b: int| 0 <= a < self.data_pool@.len() && 0 <= b < self.info_pool@.len() implies (#[trigger] self.data_pool@[a]).sector != (#[trigger] self.info_pool@[b]).sector by {
                    assert(self.info_pool@[b].sector != self.data_pool@[a].sector);
                }
            }
            let d = self.device.blocks();
            assert forall|k: int| 0 <= k < self.data_pool@.len() implies !(#[trigger] self.data_pool@[k]).dirty by {
                assert(self.data_pool@[k] == keep[k]);
            }
            assert(self.absolute() =~= d) by {
                assert forall|x: int| 0 <= x < d.len() implies #[trigger] self.absolute()[x] == d[x] by {
                    let s = x - st;
                    if x >= st && pool_has(self.data_pool@, s) {
                        let k = choose|k: int| 0 <= k < self.data_pool@.len() && self.data_pool@[k].sector == s;
                        assert(!self.data_pool@[k].dirty);
                    } else if x >= st && pool_has(self.info_pool@, s) {
                        let k = choose|k: int| 0 <= k < self.info_pool@.len() && self.info_pool@[k].sector == s;
                        assert(!self.info_pool@[k].dirty);
                    }
                }
            }
        }
    }

    /// Writes every dirty line back, then makes the volume start at sector
    /// `start` of the device.
    pub fn set_start_sec(&mut self, start: usize)
        requires
            old(self).wf(),
            start <= old(self).dev().blocks().len(),
        ensures
            final(self).wf(),
            final(self).clean(),
            final(self).start() == start,
            final(self).cap() == old(self).cap(),
            final(self).dev().blocks().len() == old(self).dev().blocks().len(),
            final(self).absolute() == old(self).absolute(),
    {
        self.write_back();
        self.data_pool = Vec::new();
        self.info_pool = Vec::new();
        self.start_sec = start;
        assert(self.absolute() =~= self.device.blocks());
    }
}

} // verus!
