use std::collections::VecDeque;

use vstd::prelude::*;

use crate::device::{BlockDevice, DEVICE_LIMIT};
use crate::BLOCK_SIZE;

verus! {

/// Most blocks held in memory at once.
pub const BLOCK_CACHE_SIZE: usize = 16;

/// `s` with the bytes at `offset .. offset + data.len()` replaced by `data`.
pub open spec fn splice(s: Seq<u8>, offset: int, data: Seq<u8>) -> Seq<u8> {
    s.subrange(0, offset) + data + s.subrange(offset + data.len(), s.len() as int)
}

/// Reading back what was spliced in gives it unchanged; bytes outside the
/// spliced range keep their values.
pub proof fn lemma_splice(s: Seq<u8>, offset: int, data: Seq<u8>)
    requires
        0 <= offset,
        offset + data.len() <= s.len(),
    ensures
        splice(s, offset, data).len() == s.len(),
        splice(s, offset, data).subrange(offset, offset + data.len()) == data,
        forall|k: int|
            0 <= k < s.len() ==> #[trigger] splice(s, offset, data)[k] == if offset <= k < offset
                + data.len() {
                data[k - offset]
            } else {
                s[k]
            },
{
    let r = splice(s, offset, data);
    assert(r.subrange(offset, offset + data.len()) =~= data);
}

/// A window of `n` bytes at `o` that lies outside the spliced range reads the same.
pub proof fn lemma_splice_outside(s: Seq<u8>, offset: int, data: Seq<u8>, o: int, n: int)
    requires
        0 <= offset,
        offset + data.len() <= s.len(),
        0 <= o,
        0 <= n,
        o + n <= s.len(),
        o + n <= offset || offset + data.len() <= o,
    ensures
        splice(s, offset, data).subrange(o, o + n) == s.subrange(o, o + n),
{
    lemma_splice(s, offset, data);
    assert(splice(s, offset, data).subrange(o, o + n) =~= s.subrange(o, o + n));
}

/// One device block held in memory; `modified` tells whether it may differ
/// from the device.
pub struct BlockCache {
    pub cache: Vec<u8>,
    pub addr: usize,
    pub modified: bool,
}

impl BlockCache {
    pub open spec fn wf(&self) -> bool {
        self.cache@.len() == BLOCK_SIZE && self.addr % BLOCK_SIZE == 0 && self.addr + BLOCK_SIZE
            <= DEVICE_LIMIT
    }

    /// Loads the block at `addr` from `device`.
    pub fn new<D: BlockDevice>(addr: usize, device: &D) -> (r: Self)
        requires
            addr % BLOCK_SIZE == 0,
            addr + BLOCK_SIZE <= DEVICE_LIMIT,
        ensures
            r.wf(),
            r.addr == addr,
            r.cache@ == device.block(addr as int),
            !r.modified,
    {
        let mut cache: Vec<u8> = vec![0u8; BLOCK_SIZE];
        device.read(addr, cache.as_mut_slice());
        BlockCache { cache, addr, modified: false }
    }

    /// The `len` bytes at `offset`.
    pub fn read(&self, offset: usize, len: usize) -> (r: Vec<u8>)
        requires
            self.wf(),
            offset + len <= BLOCK_SIZE,
        ensures
            r@ == self.cache@.subrange(offset as int, offset + len),
    {
        let mut r: Vec<u8> = Vec::with_capacity(len);
        let mut i: usize = 0;
        while i < len
            invariant
                self.wf(),
                offset + len <= BLOCK_SIZE,
                i <= len,
                r@ == self.cache@.subrange(offset as int, offset + i),
            decreases len - i,
        {
            r.push(self.cache[offset + i]);
            i += 1;
            assert(r@ =~= self.cache@.subrange(offset as int, offset + i));
        }
        r
    }

    /// Overwrites the bytes at `offset` with `data` and marks the block dirty.
    pub fn modify(&mut self, offset: usize, data: &[u8])
        requires
            old(self).wf(),
            offset + data@.len() <= BLOCK_SIZE,
        ensures
            final(self).wf(),
            final(self).addr == old(self).addr,
            final(self).modified,
            final(self).cache@ == splice(old(self).cache@, offset as int, data@),
    {
        self.modified = true;
        let mut i: usize = 0;
        while i < data.len()
            invariant
                self.wf(),
                self.addr == old(self).addr,
                self.modified,
                old(self).wf(),
                offset + data@.len() <= BLOCK_SIZE,
                i <= data@.len(),
                forall|k: int|
                    0 <= k < BLOCK_SIZE ==> #[trigger] self.cache@[k] == if offset <= k < offset
                        + i {
                        data@[k - offset]
                    } else {
                        old(self).cache@[k]
                    },
            decreases data@.len() - i,
        {
            self.cache.set(offset + i, data[i]);
            i += 1;
        }
        proof {
            lemma_splice(old(self).cache@, offset as int, data@);
        }
        assert(self.cache@ =~= splice(old(self).cache@, offset as int, data@));
    }

    /// Writes the block back to `device` if it is dirty, and clears the flag.
    pub fn sync<D: BlockDevice>(&mut self, device: &mut D)
        requires
            old(self).wf(),
        ensures
            final(self).wf(),
            final(self).cache@ == old(self).cache@,
            final(self).addr == old(self).addr,
            !final(self).modified,
            old(self).modified ==> final(device).block(old(self).addr as int) == old(self).cache@,
            !old(self).modified ==> final(device).block(old(self).addr as int) == old(
                device,
            ).block(old(self).addr as int),
            forall|a: int|
                a != old(self).addr ==> #[trigger] final(device).block(a) == old(device).block(a),
    {
        if self.modified {
            self.modified = false;
            device.write(self.addr, self.cache.as_slice());
        }
    }
}

/// The resident set of cached blocks, in the order they were loaded, and the
/// device behind them.
pub struct BlockCacheManager<D> {
    pub(crate) queue: VecDeque<BlockCache>,
    pub(crate) device: D,
}

impl<D: BlockDevice> BlockCacheManager<D> {
    pub closed spec fn wf(&self) -> bool {
        &&& self.queue@.len() <= BLOCK_CACHE_SIZE
        &&& forall|i: int| 0 <= i < self.queue@.len() ==> #[trigger] self.queue@[i].wf()
        &&& forall|i: int, j: int|
            0 <= i < j < self.queue@.len() ==> #[trigger] self.queue@[i].addr
                != #[trigger] self.queue@[j].addr
        &&& forall|i: int|
            0 <= i < self.queue@.len() && !#[trigger] self.queue@[i].modified
                ==> self.queue@[i].cache@ == self.device.block(self.queue@[i].addr as int)
    }

    /// The address of the block at position `i` of the resident set, if any.
    pub closed spec fn resident(&self, i: int) -> int {
        if 0 <= i < self.queue@.len() { self.queue@[i].addr as int } else { -1 }
    }

    /// The addresses of the resident blocks, oldest first.
    pub closed spec fn residents(&self) -> Seq<int> {
        self.queue@.map_values(|e: BlockCache| e.addr as int)
    }

    /// Whether a copy of the block at `a` is resident.
    pub closed spec fn holds(&self, a: int) -> bool {
        exists|i: int| 0 <= i < self.queue@.len() && #[trigger] self.queue@[i].addr == a
    }

    /// The bytes that a read of the block at `a` sees: the resident copy if
    /// there is one, the device's block otherwise.
    pub closed spec fn block(&self, a: int) -> Seq<u8> {
        if self.holds(a) {
            self.queue@[choose|i: int| 0 <= i < self.queue@.len() && #[trigger] self.queue@[i].addr == a].cache@
        } else {
            self.device.block(a)
        }
    }

    proof fn lemma_block_at(&self, i: int)
        requires
            self.wf(),
            0 <= i < self.queue@.len(),
        ensures
            self.block(self.queue@[i].addr as int) == self.queue@[i].cache@,
    {
        let a = self.queue@[i].addr as int;
        assert(self.holds(a));
        let j = choose|j: int| 0 <= j < self.queue@.len() && #[trigger] self.queue@[j].addr == a;
        if j < i {
            assert(self.queue@[j].addr != self.queue@[i].addr);
        } else if i < j {
            assert(self.queue@[i].addr != self.queue@[j].addr);
        }
    }

    /// A cache that holds nothing over `device`.
    pub fn new(device: D) -> (r: Self)
        ensures
            r.wf(),
            forall|a: int| #[trigger] r.block(a) == device.block(a),
    {
        BlockCacheManager { queue: VecDeque::new(), device }
    }

    /// Writes the oldest resident block back if it is dirty and drops it.
    fn evict_first(&mut self)
        requires
            old(self).wf(),
            old(self).queue@.len() > 0,
        ensures
            final(self).wf(),
            final(self).queue@ == old(self).queue@.remove(0),
            forall|a: int| #[trigger] final(self).block(a) == old(self).block(a),
    {
        let ghost q0 = self.queue@;
        let ghost s0 = *self;
        let mut victim = self.queue.pop_front().unwrap();
        victim.sync(&mut self.device);
        let ghost a0 = victim.addr as int;
        proof {
            s0.lemma_block_at(0);
            assert forall|i: int| 0 <= i < self.queue@.len() implies self.queue@[i].addr != a0 by {
                assert(self.queue@[i] == q0[i + 1]);
            }
            assert forall|i: int|
                0 <= i < self.queue@.len() && !#[trigger] self.queue@[i].modified implies self.queue@[i].cache@
                == self.device.block(self.queue@[i].addr as int) by {
                assert(self.queue@[i] == q0[i + 1]);
            }
            assert forall|i: int, j: int|
                0 <= i < j < self.queue@.len() implies #[trigger] self.queue@[i].addr
                != #[trigger] self.queue@[j].addr by {
                assert(self.queue@[i] == q0[i + 1]);
                assert(self.queue@[j] == q0[j + 1]);
            }
            assert(self.wf());
            assert forall|a: int| #[trigger] self.block(a) == s0.block(a) by {
                if a == a0 {
                    assert(!self.holds(a));
                } else if self.holds(a) {
                    let k = choose|k: int| 0 <= k < self.queue@.len() && #[trigger] self.queue@[k].addr == a;
                    self.lemma_block_at(k);
                    assert(self.queue@[k] == q0[k + 1]);
                    s0.lemma_block_at(k + 1);
                } else {
                    assert(!s0.holds(a)) by {
                        if s0.holds(a) {
                            let k = choose|k: int| 0 <= k < q0.len() && #[trigger] q0[k].addr == a;
                            assert(k != 0);
                            assert(self.queue@[k - 1] == q0[k]);
                        }
                    }
                }
            }
        }
    }

    /// The position in the resident set of the block at `addr`, loading it
    /// first (and evicting the oldest block when the set is full) if it is
    /// not resident.
    pub fn get_block_cache(&mut self, addr: usize) -> (idx: usize)
        requires
            old(self).wf(),
            addr % BLOCK_SIZE == 0,
            addr + BLOCK_SIZE <= DEVICE_LIMIT,
        ensures
            final(self).wf(),
            final(self).resident(idx as int) == addr,
            forall|a: int| #[trigger] final(self).block(a) == old(self).block(a),
            old(self).residents().contains(addr as int) ==> final(self).residents() == old(
                self,
            ).residents(),
            !old(self).residents().contains(addr as int) ==> final(self).residents() == (if old(
                self,
            ).residents().len() == BLOCK_CACHE_SIZE {
                old(self).residents().drop_first()
            } else {
                old(self).residents()
            }).push(addr as int),
    {
        let mut i: usize = 0;
        while i < self.queue.len()
            invariant
                self.wf(),
                *self == *old(self),
                i <= self.queue@.len(),
                forall|k: int| 0 <= k < i ==> #[trigger] self.queue@[k].addr != addr,
            decreases self.queue@.len() - i,
        {
            if self.queue[i].addr == addr {
                assert(old(self).residents()[i as int] == addr as int);
                return i;
            }
            i += 1;
        }
        proof {
            if old(self).residents().contains(addr as int) {
                let k = choose|k: int| 0 <= k < old(self).residents().len() && old(self).residents()[k] == addr as int;
                assert(self.queue@[k].addr == addr);
            }
        }
        let ghost q0 = self.queue@;
        if self.queue.len() == BLOCK_CACHE_SIZE {
            self.evict_first();
        }
        let ghost s1 = *self;
        let ghost base = if q0.len() == BLOCK_CACHE_SIZE { q0.remove(0) } else { q0 };
        assert(s1.queue@ == base);
        assert(!s1.holds(addr as int));
        let entry = BlockCache::new(addr, &self.device);
        self.queue.push_back(entry);
        let idx = self.queue.len() - 1;
        proof {
            let q1 = s1.queue@;
            assert forall|k: int| 0 <= k < q1.len() implies self.queue@[k] == q1[k] by {}
            assert forall|i: int, j: int|
                0 <= i < j < self.queue@.len() implies #[trigger] self.queue@[i].addr
                != #[trigger] self.queue@[j].addr by {
                if j == idx {
                    assert(self.queue@[i] == q1[i]);
                } else {
                    assert(self.queue@[i] == q1[i]);
                    assert(self.queue@[j] == q1[j]);
                }
            }
            assert(self.wf());
            assert forall|a: int| #[trigger] self.block(a) == s1.block(a) by {
                if a == addr {
                    self.lemma_block_at(idx as int);
                } else if self.holds(a) {
                    let k = choose|k: int| 0 <= k < self.queue@.len() && #[trigger] self.queue@[k].addr == a;
                    self.lemma_block_at(k);
                    assert(self.queue@[k] == q1[k]);
                    s1.lemma_block_at(k);
                } else {
                    assert(!s1.holds(a)) by {
                        if s1.holds(a) {
                            let k = choose|k: int| 0 <= k < q1.len() && #[trigger] q1[k].addr == a;
                            assert(self.queue@[k] == q1[k]);
                        }
                    }
                }
            }
        }
        proof {
            let rb = if q0.len() == BLOCK_CACHE_SIZE { old(self).residents().drop_first() } else { old(self).residents() };
            assert(self.queue@ =~= base.push(entry));
            assert(self.residents() =~= rb.push(addr as int));
        }
        idx
    }

    /// The `len` bytes at `offset` in the block at `addr`.
    pub fn read(&mut self, addr: usize, offset: usize, len: usize) -> (r: Vec<u8>)
        requires
            old(self).wf(),
            addr % BLOCK_SIZE == 0,
            addr + BLOCK_SIZE <= DEVICE_LIMIT,
            offset + len <= BLOCK_SIZE,
        ensures
            final(self).wf(),
            old(self).block(addr as int).len() == BLOCK_SIZE,
            r@ == old(self).block(addr as int).subrange(offset as int, offset + len),
            forall|a: int| #[trigger] final(self).block(a) == old(self).block(a),
    {
        let idx = self.get_block_cache(addr);
        proof {
            self.lemma_block_at(idx as int);
            assert(self.queue@[idx as int].wf());
        }
        self.queue[idx].read(offset, len)
    }

    /// Overwrites the bytes at `offset` in the block at `addr` with `data`;
    /// every other block reads as before.
    pub fn modify(&mut self, addr: usize, offset: usize, data: &[u8])
        requires
            old(self).wf(),
            addr % BLOCK_SIZE == 0,
            addr + BLOCK_SIZE <= DEVICE_LIMIT,
            offset + data@.len() <= BLOCK_SIZE,
        ensures
            final(self).wf(),
            old(self).block(addr as int).len() == BLOCK_SIZE,
            final(self).block(addr as int) == splice(
                old(self).block(addr as int),
                offset as int,
                data@,
            ),
            forall|a: int| a != addr ==> #[trigger] final(self).block(a) == old(self).block(a),
    {
        let idx = self.get_block_cache(addr);
        let ghost s1 = *self;
        proof {
            s1.lemma_block_at(idx as int);
            assert(s1.queue@[idx as int].wf());
        }
        let mut entry = self.queue.remove(idx).unwrap();
        entry.modify(offset, data);
        self.queue.insert(idx, entry);
        proof {
            let q1 = s1.queue@;
            assert(self.queue@ =~= q1.update(idx as int, entry));
            assert(self.device == s1.device);
            assert forall|i: int, j: int|
                0 <= i < j < self.queue@.len() implies #[trigger] self.queue@[i].addr
                != #[trigger] self.queue@[j].addr by {
                assert(q1[i].addr != q1[j].addr);
            }
            assert forall|i: int|
                0 <= i < self.queue@.len() && !#[trigger] self.queue@[i].modified implies self.queue@[i].cache@
                == self.device.block(self.queue@[i].addr as int) by {
                assert(i != idx);
            }
            assert(self.wf());
            self.lemma_block_at(idx as int);
            assert forall|a: int| a != addr implies #[trigger] self.block(a) == s1.block(a) by {
                if self.holds(a) {
                    let k = choose|k: int| 0 <= k < self.queue@.len() && #[trigger] self.queue@[k].addr == a;
                    self.lemma_block_at(k);
                    s1.lemma_block_at(k);
                } else {
                    assert(!s1.holds(a)) by {
                        if s1.holds(a) {
                            let k = choose|k: int| 0 <= k < q1.len() && #[trigger] q1[k].addr == a;
                            assert(self.queue@[k].addr == a);
                        }
                    }
                }
            }
        }
    }

    /// Writes every dirty block back and hands the device out; the device
    /// then holds every block as reads saw it.
    pub fn into_device(self) -> (r: D)
        requires
            self.wf(),
        ensures
            forall|a: int| #[trigger] r.block(a) == self.block(a),
    {
        let mut s = self;
        while s.queue.len() > 0
            invariant
                s.wf(),
                forall|a: int| #[trigger] s.block(a) == self.block(a),
            decreases s.queue@.len(),
        {
            s.evict_first();
        }
        assert forall|a: int| #[trigger] s.device.block(a) == self.block(a) by {
            assert(!s.holds(a));
            assert(s.block(a) == self.block(a));
        }
        s.device
    }
}

/// After `modify` wrote `data` at `offset` of the block at `addr`, a `read`
/// of those bytes of that block, through any later lookup of it, gives `data`.
pub proof fn lemma_modify_then_read<D: BlockDevice>(
    before: BlockCacheManager<D>,
    after: BlockCacheManager<D>,
    addr: int,
    offset: int,
    data: Seq<u8>,
)
    requires
        before.block(addr).len() == BLOCK_SIZE,
        0 <= offset,
        offset + data.len() <= BLOCK_SIZE,
        after.block(addr) == splice(before.block(addr), offset, data),
    ensures
        after.block(addr).subrange(offset, offset + data.len()) == data,
{
    lemma_splice(before.block(addr), offset, data);
}

} // verus!
