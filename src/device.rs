use vstd::prelude::*;

use crate::BLOCK_SIZE;

verus! {

/// Byte addresses of blocks stay below this bound, so that every address
/// (and every address plus a block) fits a `usize` on a 32-bit machine.
pub const DEVICE_LIMIT: usize = 0x8000_0000;

/// The block device the filesystem is stored on: synchronous reads and
/// writes of whole `BLOCK_SIZE` blocks at block-aligned byte addresses.
pub trait BlockDevice {
    /// The bytes stored in the block that starts at byte address `addr`.
    spec fn block(&self, addr: int) -> Seq<u8>;

    /// Fills `buf` with the block at `addr`.
    fn read(&self, addr: usize, buf: &mut [u8])
        requires
            old(buf)@.len() == BLOCK_SIZE,
            addr % BLOCK_SIZE == 0,
            addr + BLOCK_SIZE <= DEVICE_LIMIT,
        ensures
            final(buf)@ == self.block(addr as int),
            final(buf)@.len() == BLOCK_SIZE,
    ;

    /// Stores `buf` as the block at `addr`; every other block keeps its bytes.
    fn write(&mut self, addr: usize, buf: &[u8])
        requires
            buf@.len() == BLOCK_SIZE,
            addr % BLOCK_SIZE == 0,
            addr + BLOCK_SIZE <= DEVICE_LIMIT,
        ensures
            final(self).block(addr as int) == buf@,
            forall|a: int| a != addr ==> #[trigger] final(self).block(a) == old(self).block(a),
    ;
}

/// The bytes of a memory-backed device at byte `x`: zero past its end.
pub open spec fn mem_byte(data: Seq<u8>, x: int) -> u8 {
    if 0 <= x < data.len() {
        data[x]
    } else {
        0
    }
}

/// A device held in memory. It reads as zeros past its end and grows when a
/// block past its end is written.
pub struct MemDisk {
    pub data: Vec<u8>,
}

impl MemDisk {
    /// A zeroed device of `bytes` bytes.
    pub fn new(bytes: usize) -> (r: MemDisk)
        ensures
            r.data@.len() == bytes,
            forall|i: int| 0 <= i < bytes ==> r.data@[i] == 0,
    {
        MemDisk { data: vec![0u8; bytes] }
    }

    /// A device holding `data`.
    pub fn from_bytes(data: Vec<u8>) -> (r: MemDisk)
        ensures
            r.data@ == data@,
    {
        MemDisk { data }
    }

    /// The device's bytes.
    pub fn into_bytes(self) -> (r: Vec<u8>)
        ensures
            r@ == self.data@,
    {
        self.data
    }

    /// The device's bytes, borrowed.
    pub fn bytes(&self) -> (r: &Vec<u8>)
        ensures
            r@ == self.data@,
    {
        &self.data
    }
}

impl BlockDevice for MemDisk {
    open spec fn block(&self, addr: int) -> Seq<u8> {
        if addr % BLOCK_SIZE as int == 0 {
            Seq::new(BLOCK_SIZE as nat, |i: int| mem_byte(self.data@, addr + i))
        } else {
            Seq::new(BLOCK_SIZE as nat, |i: int| 0u8)
        }
    }

    fn read(&self, addr: usize, buf: &mut [u8]) {
        let mut i: usize = 0;
        while i < BLOCK_SIZE
            invariant
                buf@.len() == BLOCK_SIZE,
                addr % BLOCK_SIZE == 0,
                addr + BLOCK_SIZE <= DEVICE_LIMIT,
                i <= BLOCK_SIZE,
                forall|j: int| 0 <= j < i ==> buf@[j] == mem_byte(self.data@, addr + j),
            decreases BLOCK_SIZE - i,
        {
            let x = addr + i;
            let b = if x < self.data.len() {
                self.data[x]
            } else {
                0u8
            };
            buf[i] = b;
            i += 1;
        }
        assert(buf@ =~= self.block(addr as int));
    }

    fn write(&mut self, addr: usize, buf: &[u8]) {
        let ghost before = self.data@;
        if self.data.len() < addr + BLOCK_SIZE {
            while self.data.len() < addr + BLOCK_SIZE
                invariant
                    forall|x: int| #[trigger] mem_byte(self.data@, x) == mem_byte(before, x),
                    self.data@.len() >= before.len(),
                    addr + BLOCK_SIZE <= DEVICE_LIMIT,
                decreases addr + BLOCK_SIZE - self.data@.len(),
            {
                let ghost prev = self.data@;
                self.data.push(0u8);
                assert forall|x: int| #[trigger] mem_byte(self.data@, x) == mem_byte(before, x) by {
                    assert(mem_byte(prev, x) == mem_byte(before, x));
                }
            }
        }
        let mut i: usize = 0;
        while i < BLOCK_SIZE
            invariant
                buf@.len() == BLOCK_SIZE,
                addr % BLOCK_SIZE == 0,
                self.data@.len() >= addr + BLOCK_SIZE,
                i <= BLOCK_SIZE,
                forall|x: int|
                    #[trigger] mem_byte(self.data@, x) == if addr <= x < addr + i {
                        buf@[x - addr]
                    } else {
                        mem_byte(before, x)
                    },
            decreases BLOCK_SIZE - i,
        {
            let ghost prev = self.data@;
            self.data.set(addr + i, buf[i]);
            proof {
                assert forall|x: int|
                    #[trigger] mem_byte(self.data@, x) == if addr <= x < addr + i + 1 {
                        buf@[x - addr]
                    } else {
                        mem_byte(before, x)
                    } by {
                    assert(mem_byte(prev, x) == if addr <= x < addr + i {
                        buf@[x - addr]
                    } else {
                        mem_byte(before, x)
                    });
                }
            }
            i += 1;
        }
        assert(self.block(addr as int) =~= buf@);
        assert forall|a: int| a != addr implies #[trigger] self.block(a) == old(self).block(a) by {
            if a % BLOCK_SIZE as int == 0 {
                assert forall|i: int| 0 <= i < BLOCK_SIZE implies #[trigger] mem_byte(self.data@, a + i) == mem_byte(before, a + i) by {
                    if addr <= a + i < addr + BLOCK_SIZE {
                        assert(false);
                    }
                }
                assert(self.block(a) =~= old(self).block(a));
            } else {
                assert(self.block(a) =~= old(self).block(a));
            }
        }
    }
}

} // verus!
