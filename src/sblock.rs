use vstd::bytes::*;
use vstd::prelude::*;

use crate::cache::BlockCacheManager;
use crate::device::BlockDevice;
use crate::BLOCK_SIZE;

verus! {

/// The volume magic, the bytes `"fefs"` read as a little-endian `u32`.
pub const FEFS_MAGIC: u32 = 0x7366_6566;

/// Largest number of sectors per cluster a volume may have: with more, the
/// clusters the FAT can name would reach past 2^31 bytes, beyond what a
/// 32-bit `usize` addresses. Superblocks with more are not mounted.
pub const MAX_SECTOR_PER_CLUSTER: usize = 128;

/// Number of bytes the superblock takes at the start of sector 0.
pub const SBLOCK_BYTES: usize = 20;

/// The volume descriptor stored at the start of the device.
///
/// On disk: the magic, then `byte_per_sector`, `sector_per_cluster`,
/// `sector_per_fat` and `root_cluster`, each a little-endian `u32`, packed.
#[derive(Clone, Copy, Debug, PartialEq, Eq)]
pub struct SuperBlock {
    pub magic: u32,
    pub byte_per_sector: usize,
    pub sector_per_cluster: usize,
    pub sector_per_fat: usize,
    pub root_cluster: usize,
}

/// The bytes the superblock is stored as.
pub open spec fn sblock_bytes(sb: SuperBlock) -> Seq<u8> {
    spec_u32_to_le_bytes(sb.magic) + spec_u32_to_le_bytes(sb.byte_per_sector as u32)
        + spec_u32_to_le_bytes(sb.sector_per_cluster as u32) + spec_u32_to_le_bytes(
        sb.sector_per_fat as u32,
    ) + spec_u32_to_le_bytes(sb.root_cluster as u32)
}

/// The superblock that the bytes `s` (at least `SBLOCK_BYTES` of them) describe.
pub open spec fn sblock_of(s: Seq<u8>) -> SuperBlock {
    SuperBlock {
        magic: spec_u32_from_le_bytes(s.subrange(0, 4)),
        byte_per_sector: spec_u32_from_le_bytes(s.subrange(4, 8)) as usize,
        sector_per_cluster: spec_u32_from_le_bytes(s.subrange(8, 12)) as usize,
        sector_per_fat: spec_u32_from_le_bytes(s.subrange(12, 16)) as usize,
        root_cluster: spec_u32_from_le_bytes(s.subrange(16, 20)) as usize,
    }
}

impl SuperBlock {
    /// A volume this library can mount: the right magic, one sector per
    /// block, the root at cluster 2 and a FAT of two clusters' worth of sectors.
    pub open spec fn wf(&self) -> bool {
        &&& self.magic == FEFS_MAGIC
        &&& self.byte_per_sector == BLOCK_SIZE
        &&& 1 <= self.sector_per_cluster <= MAX_SECTOR_PER_CLUSTER
        &&& self.sector_per_fat == 2 * self.sector_per_cluster
        &&& self.root_cluster == 2
    }

    /// Bytes in one cluster.
    pub open spec fn cluster_bytes(&self) -> int {
        self.sector_per_cluster * BLOCK_SIZE
    }

    /// Number of FAT entries between the start of the FAT and the data region;
    /// cluster numbers below it are the ones that can be allocated.
    pub open spec fn end(&self) -> int {
        (self.root_cluster * self.sector_per_cluster * BLOCK_SIZE - 512) / 4
    }

    /// A cluster number that names a cluster of the data region.
    pub open spec fn valid_cluster(&self, c: int) -> bool {
        self.root_cluster <= c < self.end()
    }

    /// Byte address of the first sector of cluster `c`.
    pub open spec fn offset_spec(&self, c: int) -> int {
        (self.sector_per_fat + (c - self.root_cluster) * self.sector_per_cluster)
            * self.byte_per_sector
    }

    /// Byte address where the data region begins.
    pub open spec fn data_start(&self) -> int {
        self.sector_per_fat * BLOCK_SIZE
    }

    /// Whether the magic matches.
    pub fn is_valid(&self) -> (r: bool)
        ensures
            r == (self.magic == FEFS_MAGIC),
    {
        self.magic == FEFS_MAGIC
    }

    /// Byte address where the FAT begins: right after the superblock's sector.
    pub fn fat(&self) -> (r: usize)
        ensures
            r == 512,
    {
        512
    }

    /// Number of FAT entries that can be allocated from.
    pub fn fat_end(&self) -> (r: usize)
        requires
            self.wf(),
        ensures
            r == self.end(),
            r == 256 * self.sector_per_cluster - 128,
    {
        (self.root_cluster * self.sector_per_cluster * BLOCK_SIZE - self.fat()) / 4
    }

    /// Byte address of the first sector of `cluster`.
    pub fn offset(&self, cluster: usize) -> (r: usize)
        requires
            self.wf(),
            self.valid_cluster(cluster as int),
        ensures
            r == self.offset_spec(cluster as int),
            r == cluster * self.cluster_bytes(),
            r % BLOCK_SIZE == 0,
            r >= self.data_start(),
            r + self.cluster_bytes() <= self.end() * self.cluster_bytes(),
    {
        proof {
            lemma_offset_bounds(*self, cluster as int);
        }
        (self.sector_per_fat + (cluster - self.root_cluster) * self.sector_per_cluster)
            * self.byte_per_sector
    }
}

/// Where a valid cluster lies, and that all of it fits below 2^31.
pub proof fn lemma_offset_bounds(sb: SuperBlock, c: int)
    requires
        sb.wf(),
        sb.valid_cluster(c),
    ensures
        sb.end() == 256 * sb.sector_per_cluster - 128,
        sb.offset_spec(c) == c * sb.cluster_bytes(),
        sb.offset_spec(c) % (BLOCK_SIZE as int) == 0,
        sb.offset_spec(c) >= sb.data_start(),
        sb.offset_spec(c) + sb.cluster_bytes() <= sb.end() * sb.cluster_bytes(),
        sb.end() * sb.cluster_bytes() < 0x8000_0000,
        (sb.sector_per_fat + (c - sb.root_cluster) * sb.sector_per_cluster) * sb.byte_per_sector
            == c * sb.cluster_bytes(),
{
    let spc = sb.sector_per_cluster as int;
    assert(sb.end() == 256 * spc - 128);
    assert((2 * spc + (c - 2) * spc) * 512 == c * (spc * 512)) by (nonlinear_arith);
    assert(c * (spc * 512) == (c * spc) * 512) by (nonlinear_arith);
    vstd::arithmetic::div_mod::lemma_mod_multiples_basic(c * spc, 512);
    assert(c * (spc * 512) >= 2 * spc * 512) by (nonlinear_arith)
        requires
            c >= 2,
            spc >= 1,
    ;
    assert(c * (spc * 512) + spc * 512 <= (256 * spc - 128) * (spc * 512)) by (nonlinear_arith)
        requires
            c < 256 * spc - 128,
            spc >= 1,
    ;
    assert((256 * spc - 128) * (spc * 512) < 0x8000_0000) by (nonlinear_arith)
        requires
            1 <= spc <= 128,
    ;
}

/// The encoding of a well-formed superblock decodes to it.
pub proof fn lemma_sblock_round_trip(sb: SuperBlock)
    requires
        sb.wf(),
    ensures
        sblock_bytes(sb).len() == SBLOCK_BYTES,
        sblock_of(sblock_bytes(sb)) == sb,
{
    lemma_auto_spec_u32_to_from_le_bytes();
    let s = sblock_bytes(sb);
    assert(s.subrange(0, 4) =~= spec_u32_to_le_bytes(sb.magic));
    assert(s.subrange(4, 8) =~= spec_u32_to_le_bytes(sb.byte_per_sector as u32));
    assert(s.subrange(8, 12) =~= spec_u32_to_le_bytes(sb.sector_per_cluster as u32));
    assert(s.subrange(12, 16) =~= spec_u32_to_le_bytes(sb.sector_per_fat as u32));
    assert(s.subrange(16, 20) =~= spec_u32_to_le_bytes(sb.root_cluster as u32));
}

/// The `u32` stored little-endian at `offset` of sector 0.
fn read_u32_at<D: BlockDevice>(cm: &mut BlockCacheManager<D>, offset: usize) -> (r: u32)
    requires
        old(cm).wf(),
        offset + 4 <= BLOCK_SIZE,
    ensures
        final(cm).wf(),
        old(cm).block(0).len() == BLOCK_SIZE,
        r == spec_u32_from_le_bytes(old(cm).block(0).subrange(offset as int, offset + 4)),
        forall|a: int| #[trigger] final(cm).block(a) == old(cm).block(a),
{
    let bytes = cm.read(0, offset, 4);
    u32_from_le_bytes(bytes.as_slice())
}

/// Reads the superblock from `cm`'s device; `None` when it does not describe
/// a volume this library can mount.
pub fn get_sblock<D: BlockDevice>(cm: &mut BlockCacheManager<D>) -> (r: Option<SuperBlock>)
    requires
        old(cm).wf(),
    ensures
        final(cm).wf(),
        forall|a: int| #[trigger] final(cm).block(a) == old(cm).block(a),
        old(cm).block(0).len() == BLOCK_SIZE,
        r == if sblock_of(old(cm).block(0)).wf() {
            Some(sblock_of(old(cm).block(0)))
        } else {
            None::<SuperBlock>
        },
{
    let magic = read_u32_at(cm, 0);
    let bps = read_u32_at(cm, 4);
    let spc = read_u32_at(cm, 8);
    let spf = read_u32_at(cm, 12);
    let root = read_u32_at(cm, 16);
    let sb = SuperBlock {
        magic,
        byte_per_sector: bps as usize,
        sector_per_cluster: spc as usize,
        sector_per_fat: spf as usize,
        root_cluster: root as usize,
    };
    if magic == FEFS_MAGIC && bps as usize == BLOCK_SIZE && 1 <= spc && spc as usize
        <= MAX_SECTOR_PER_CLUSTER && spf as u64 == 2 * (spc as u64) && root == 2 {
        Some(sb)
    } else {
        None
    }
}

/// Stores `sblock` at the start of sector 0.
pub fn write_sblock<D: BlockDevice>(sblock: SuperBlock, cm: &mut BlockCacheManager<D>)
    requires
        old(cm).wf(),
        sblock.wf(),
    ensures
        final(cm).wf(),
        final(cm).block(0).len() == BLOCK_SIZE,
        final(cm).block(0).subrange(0, SBLOCK_BYTES as int) == sblock_bytes(sblock),
        forall|a: int| a != 0 ==> #[trigger] final(cm).block(a) == old(cm).block(a),
{
    let mut bytes = u32_to_le_bytes(sblock.magic);
    let mut f1 = u32_to_le_bytes(sblock.byte_per_sector as u32);
    let mut f2 = u32_to_le_bytes(sblock.sector_per_cluster as u32);
    let mut f3 = u32_to_le_bytes(sblock.sector_per_fat as u32);
    let mut f4 = u32_to_le_bytes(sblock.root_cluster as u32);
    bytes.append(&mut f1);
    bytes.append(&mut f2);
    bytes.append(&mut f3);
    bytes.append(&mut f4);
    assert(bytes@ =~= sblock_bytes(sblock));
    cm.modify(0, 0, bytes.as_slice());
    proof {
        crate::cache::lemma_splice(old(cm).block(0), 0, bytes@);
    }
}

/// A device whose sector 0 starts with the bytes a well-formed superblock was
/// written as mounts with that same superblock.
pub proof fn lemma_open_after_create(sb: SuperBlock, block0: Seq<u8>)
    requires
        sb.wf(),
        block0.len() == BLOCK_SIZE,
        block0.subrange(0, SBLOCK_BYTES as int) == sblock_bytes(sb),
    ensures
        sblock_of(block0).wf(),
        sblock_of(block0) == sb,
{
    lemma_sblock_round_trip(sb);
    let head = block0.subrange(0, SBLOCK_BYTES as int);
    assert(block0.subrange(0, 4) =~= head.subrange(0, 4));
    assert(block0.subrange(4, 8) =~= head.subrange(4, 8));
    assert(block0.subrange(8, 12) =~= head.subrange(8, 12));
    assert(block0.subrange(12, 16) =~= head.subrange(12, 16));
    assert(block0.subrange(16, 20) =~= head.subrange(16, 20));
}

} // verus!
