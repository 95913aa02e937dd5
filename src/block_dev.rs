//! The block device interface: 512-byte sectors read and written whole.
use vstd::prelude::*;

use crate::BLOCK_SZ;

verus! {

/// Whether every sector of a device image holds `BLOCK_SZ` bytes.
pub open spec fn sectors_ok(blocks: Seq<Seq<u8>>) -> bool {
    forall|i: int| 0 <= i < blocks.len() ==> #[trigger] blocks[i].len() == BLOCK_SZ
}

/// A device of 512-byte sectors. Its contents are modelled as a sequence of
/// sectors; reading returns a sector, writing replaces one.
pub trait BlockDevice {
    /// The sectors of the device.
    spec fn blocks(&self) -> Seq<Seq<u8>>;

    /// Number of sectors.
    fn num_blocks(&self) -> (r: usize)
        ensures
            r == self.blocks().len(),
    ;

    /// Reads sector `block_id` into `buf`.
    fn read_block(&self, block_id: usize, buf: &mut Vec<u8>)
        requires
            block_id < self.blocks().len(),
        ensures
            final(buf)@ == self.blocks()[block_id as int],
    ;

    /// Replaces sector `block_id` with `buf`.
    fn write_block(&mut self, block_id: usize, buf: &[u8])
        requires
            block_id < old(self).blocks().len(),
            buf@.len() == BLOCK_SZ,
        ensures
            final(self).blocks() == old(self).blocks().update(block_id as int, buf@),
    ;
}

/// A device held in memory, for images and tests.
pub struct RamDisk {
    data: Vec<u8>,
}

impl RamDisk {
    /// A zeroed device of `n` sectors.
    pub fn new(n: usize) -> (r: Self)
        requires
            n * BLOCK_SZ <= usize::MAX,
        ensures
            r.blocks().len() == n,
            forall|i: int, j: int|
                0 <= i < n && 0 <= j < BLOCK_SZ ==> #[trigger] r.blocks()[i][j] == 0,
            sectors_ok(r.blocks()),
    {
        let total = n * BLOCK_SZ;
        let data: Vec<u8> = vec![0u8; total];
        let r = RamDisk { data };
        assert forall|i: int, j: int| 0 <= i < n && 0 <= j < BLOCK_SZ implies #[trigger] r.blocks()[i][j] == 0 by {
            assert(0 <= i * 512 + j < n * 512) by (nonlinear_arith)
                requires 0 <= i < n, 0 <= j < 512;
        }
        r
    }

    /// A device whose sectors are the consecutive 512-byte pieces of `data`.
    pub fn from_bytes(data: Vec<u8>) -> (r: Self)
        requires
            data@.len() % 512 == 0,
        ensures
            r.blocks().len() == data@.len() / 512,
            r.bytes() == data@,
    {
        RamDisk { data }
    }

    /// All bytes of the device.
    pub closed spec fn bytes(&self) -> Seq<u8> {
        self.data@
    }

    /// All bytes of the device.
    pub fn as_bytes(&self) -> (r: &Vec<u8>)
        ensures
            r@ == self.bytes(),
    {
        &self.data
    }
}

impl BlockDevice for RamDisk {
    open spec fn blocks(&self) -> Seq<Seq<u8>> {
        Seq::new(
            (self.bytes().len() / 512) as nat,
            |i: int| self.bytes().subrange(i * 512, i * 512 + 512),
        )
    }

    fn num_blocks(&self) -> (r: usize) {
        self.data.len() / BLOCK_SZ
    }

    fn read_block(&self, block_id: usize, buf: &mut Vec<u8>) {
        proof {
            lemma_block_in_range(self.data@.len() as int, block_id as int);
        }
        let len = self.data.len();
        assert(block_id * 512 + 512 <= len);
        let base = block_id * BLOCK_SZ;
        let mut out: Vec<u8> = Vec::new();
        let mut i: usize = 0;
        while i < BLOCK_SZ
            invariant
                i <= BLOCK_SZ,
                base == block_id * 512,
                base + 512 <= self.data@.len(),
                out@ == self.data@.subrange(base as int, base + i),
            decreases BLOCK_SZ - i,
        {
            out.push(self.data[base + i]);
            assert(out@ =~= self.data@.subrange(base as int, base + i + 1));
            i += 1;
        }
        *buf = out;
    }

    fn write_block(&mut self, block_id: usize, buf: &[u8]) {
        proof {
            lemma_block_in_range(self.data@.len() as int, block_id as int);
        }
        let ghost old_data = self.data@;
        let len = self.data.len();
        assert(block_id * 512 + 512 <= len);
        let base = block_id * BLOCK_SZ;
        let mut i: usize = 0;
        while i < BLOCK_SZ
            invariant
                i <= BLOCK_SZ,
                base == block_id * 512,
                base + 512 <= old_data.len(),
                buf@.len() == 512,
                self.data@.len() == old_data.len(),
                forall|k: int|
                    0 <= k < old_data.len() ==> #[trigger] self.data@[k] == if base <= k < base
                        + i {
                        buf@[k - base]
                    } else {
                        old_data[k]
                    },
            decreases BLOCK_SZ - i,
        {
            self.data.set(base + i, buf[i]);
            i += 1;
        }
        proof {
            let nb = self.blocks();
            let ob = old(self).blocks().update(block_id as int, buf@);
            assert forall|j: int| 0 <= j < nb.len() implies #[trigger] nb[j] == ob[j] by {
                lemma_block_in_range(self.data@.len() as int, j);
                if j == block_id {
                    assert(nb[j] =~= buf@);
                } else {
                    assert(j * 512 + 512 <= base || base + 512 <= j * 512) by (nonlinear_arith)
                        requires
                            j != block_id,
                            base == block_id * 512,
                    ;
                    assert(nb[j] =~= old(self).blocks()[j]);
                }
            }
            assert(nb =~= ob);
        }
    }
}

proof fn lemma_block_in_range(len: int, i: int)
    requires
        0 <= i < len / 512,
    ensures
        0 <= i * 512,
        i * 512 + 512 <= len,
{
    assert(i * 512 + 512 <= len) by (nonlinear_arith)
        requires
            0 <= i < len / 512,
    ;
}

} // verus!
