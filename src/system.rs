use vstd::prelude::*;

use crate::cache::BlockCacheManager;
use crate::chain::{cluster_of, zero_block, zero_cluster};
use crate::device::BlockDevice;
use crate::dir::DirEntry;
use crate::fat::{chain_ok, create_fat, fat_entry, init_fat_manager, read_clusters, FATManager, FAT_FREE};
use crate::sblock::{get_sblock, sblock_bytes, sblock_of, write_sblock, SuperBlock, FEFS_MAGIC};
use crate::BLOCK_SIZE;

verus! {

/// A mounted volume: the device behind its block cache, the cluster
/// allocator and the superblock.
pub struct FileSystem<D> {
    pub(crate) cache: BlockCacheManager<D>,
    pub(crate) fat: FATManager,
    pub(crate) sblock: SuperBlock,
}

impl<D: BlockDevice> FileSystem<D> {
    pub open(crate) spec fn wf(&self) -> bool {
        &&& self.cache.wf()
        &&& self.fat.wf()
        &&& self.fat.sb() == self.sblock
        &&& self.sblock.wf()
    }

    /// The blocks of the volume as reads see them.
    pub open(crate) spec fn cm(&self) -> BlockCacheManager<D> {
        self.cache
    }

    /// The clusters freed since mounting that the allocator may hand out
    /// again, the most recently freed last.
    pub open(crate) spec fn recycled(&self) -> Seq<usize> {
        self.fat.recycled_view()
    }

    /// The volume's superblock.
    pub open(crate) spec fn sb(&self) -> SuperBlock {
        self.sblock
    }

    /// Formats `device` as an empty volume with `sector_per_cluster` sectors
    /// per cluster and mounts it. At most `MAX_SECTOR_PER_CLUSTER` sectors per
    /// cluster are taken: with that bound every cluster the FAT can name lies
    /// below `DEVICE_LIMIT` (2^31), so all byte addresses fit a 32-bit `usize`.
    pub fn create(device: D, byte_per_sector: usize, sector_per_cluster: usize) -> (r: Self)
        requires
            byte_per_sector == BLOCK_SIZE,
            1 <= sector_per_cluster <= crate::sblock::MAX_SECTOR_PER_CLUSTER,
        ensures
            r.wf(),
            r.sb().byte_per_sector == byte_per_sector,
            r.sb().sector_per_cluster == sector_per_cluster,
            r.sb().sector_per_fat == 2 * sector_per_cluster,
            r.sb().root_cluster == 2,
            r.cm().block(0).len() == BLOCK_SIZE,
            r.cm().block(0).subrange(0, crate::sblock::SBLOCK_BYTES as int) == sblock_bytes(r.sb()),
            chain_ok(&r.cm(), r.sb(), seq![2usize]),
            forall|c: int| 3 <= c < r.sb().end() ==> #[trigger] fat_entry(&r.cm(), c) == FAT_FREE,
            fat_entry(&r.cm(), 0) == crate::fat::FAT_RESERVED,
            fat_entry(&r.cm(), 1) == crate::fat::FAT_RESERVED,
            forall|a: int|
                cluster_of(r.sb(), a) == 2 && a % 512 == 0 ==> #[trigger] r.cm().block(a)
                    == zero_block(),
    {
        let sblock = SuperBlock {
            magic: FEFS_MAGIC,
            byte_per_sector,
            sector_per_cluster,
            sector_per_fat: sector_per_cluster * 2,
            root_cluster: 2,
        };
        let mut cache = BlockCacheManager::new(device);
        create_fat(&sblock, &mut cache);
        let ghost c1 = cache;
        zero_cluster(&sblock, &mut cache, 2);
        let ghost c2 = cache;
        write_sblock(sblock, &mut cache);
        let ghost c3 = cache;
        let fat = init_fat_manager(&sblock, &mut cache);
        proof {
            crate::fat::lemma_fat_layout(sblock, 2, 0);
            crate::sblock::lemma_offset_bounds(sblock, 2);
            assert forall|c: int| 0 <= c < sblock.end() implies #[trigger] fat_entry(&cache, c)
                == fat_entry(&c1, c) by {
                crate::fat::lemma_fat_layout(sblock, c, 0);
                assert(cluster_of(sblock, crate::fat::fat_blk(c)) != 2) by {
                    vstd::arithmetic::div_mod::lemma_div_is_ordered(
                        crate::fat::fat_blk(c),
                        sblock.data_start(),
                        sblock.cluster_bytes(),
                    );
                    assert(sblock.data_start() / sblock.cluster_bytes() == 2) by {
                        vstd::arithmetic::div_mod::lemma_div_multiples_vanish(
                            2,
                            sblock.cluster_bytes(),
                        );
                    }
                    assert(crate::fat::fat_blk(c) < sblock.data_start());
                    if cluster_of(sblock, crate::fat::fat_blk(c)) == 2 {
                        vstd::arithmetic::div_mod::lemma_fundamental_div_mod(
                            crate::fat::fat_blk(c),
                            sblock.cluster_bytes(),
                        );
                        vstd::arithmetic::div_mod::lemma_mod_bound(
                            crate::fat::fat_blk(c),
                            sblock.cluster_bytes(),
                        );
                    }
                }
                assert(c2.block(crate::fat::fat_blk(c)) == c1.block(crate::fat::fat_blk(c)));
                assert(c3.block(crate::fat::fat_blk(c)) == c2.block(crate::fat::fat_blk(c)));
            }
            assert(seq![2usize].no_duplicates());
            assert forall|a: int|
                cluster_of(sblock, a) == 2 && a % 512 == 0 implies #[trigger] cache.block(a)
                == zero_block() by {
                if a == 0 {
                    assert(cluster_of(sblock, 0) == 0);
                }
                assert(c3.block(a) == c2.block(a));
            }
        }
        FileSystem { cache, fat, sblock }
    }

    /// Mounts the volume on `device`; `None` when its superblock does not
    /// describe a volume this library can mount.
    pub fn open(device: D) -> (r: Option<Self>)
        ensures
            r is Some <==> sblock_of(device.block(0)).wf(),
            r matches Some(fs) ==> {
                &&& fs.wf()
                &&& fs.sb() == sblock_of(device.block(0))
                &&& forall|a: int| #[trigger] fs.cm().block(a) == device.block(a)
            },
    {
        let mut cache = BlockCacheManager::new(device);
        match get_sblock(&mut cache) {
            None => None,
            Some(sblock) => {
                let fat = init_fat_manager(&sblock, &mut cache);
                Some(FileSystem { cache, fat, sblock })
            },
        }
    }

    /// The root directory; `None` when its chain cannot be walked.
    pub fn root(&mut self) -> (r: Option<DirEntry>)
        requires
            old(self).wf(),
        ensures
            final(self).wf(),
            final(self).sb() == old(self).sb(),
            crate::fat::same_blocks(&final(self).cm(), &old(self).cm()),
            forall|ch: Seq<usize>|
                #[trigger] chain_ok(&old(self).cm(), old(self).sb(), ch) && ch[0] == 2 ==> r is Some
                    && r.unwrap().chain() == ch,
            r matches Some(d) ==> d.wf_in(final(self)) && d.chain()[0] == 2,
    {
        let ghost c0 = self.cache;
        match read_clusters(&self.sblock, &mut self.cache, self.sblock.root_cluster) {
            None => None,
            Some(clusters) => {
                proof {
                    crate::dir::lemma_chain_ok_same(&c0, &self.cache, self.sblock, clusters@);
                }
                Some(DirEntry { clusters })
            },
        }
    }

    /// The volume's superblock.
    pub fn superblock(&self) -> (r: SuperBlock)
        ensures
            r == self.sb(),
    {
        self.sblock
    }

    /// The FAT entry of `cluster`.
    pub fn read_fat_entry(&mut self, cluster: usize) -> (r: u32)
        requires
            old(self).wf(),
            cluster < crate::fat::MAX_CLUSTERS,
        ensures
            final(self).wf(),
            final(self).sb() == old(self).sb(),
            crate::fat::same_blocks(&final(self).cm(), &old(self).cm()),
            r == fat_entry(&old(self).cm(), cluster as int),
    {
        crate::fat::read_fat(&mut self.cache, cluster)
    }

    /// Writes every cached block back and hands the device out.
    pub fn unmount(self) -> (r: D)
        requires
            self.wf(),
        ensures
            forall|a: int| #[trigger] r.block(a) == self.cm().block(a),
    {
        self.cache.into_device()
    }
}

} // verus!
