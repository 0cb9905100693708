use vstd::bytes::*;
use vstd::prelude::*;

use crate::cache::{lemma_splice, lemma_splice_outside, BlockCacheManager};
use crate::device::BlockDevice;
use crate::sblock::SuperBlock;
use crate::BLOCK_SIZE;

verus! {

/// FAT value of a free cluster.
pub const FAT_FREE: u32 = 0;

/// FAT value of the last cluster of a chain.
pub const FAT_EOC: u32 = 0x0FFF_FFFF;

/// FAT value the two reserved entries (clusters 0 and 1) are poisoned with.
pub const FAT_RESERVED: u32 = 0xFFFF_FFFF;

/// Bound on the FAT entries of any volume this library mounts.
pub const MAX_CLUSTERS: usize = 32768;

/// Address of the block holding the FAT entry of cluster `c`.
pub open spec fn fat_blk(c: int) -> int {
    512 * (1 + c / 128)
}

/// Offset of the FAT entry of cluster `c` within its block.
pub open spec fn fat_off(c: int) -> int {
    4 * (c % 128)
}

/// The FAT entry of cluster `c` as reads through `cm` see it.
pub open spec fn fat_entry<D: BlockDevice>(cm: &BlockCacheManager<D>, c: int) -> u32 {
    spec_u32_from_le_bytes(cm.block(fat_blk(c)).subrange(fat_off(c), fat_off(c) + 4))
}

/// Every block outside the FAT region reads the same through `a` and `b`.
pub open spec fn same_outside_fat<D: BlockDevice>(
    a: &BlockCacheManager<D>,
    b: &BlockCacheManager<D>,
    sb: SuperBlock,
) -> bool {
    forall|x: int| !(512 <= x < sb.data_start()) ==> #[trigger] a.block(x) == b.block(x)
}

/// Every block reads the same through `a` and `b`.
pub open spec fn same_blocks<D: BlockDevice>(
    a: &BlockCacheManager<D>,
    b: &BlockCacheManager<D>,
) -> bool {
    forall|x: int| #[trigger] a.block(x) == b.block(x)
}

/// `chain` is a cluster chain of `sb`'s data region as the FAT in `cm` links
/// it: each cluster's entry names the next one, the last one's ends the
/// chain, and no cluster appears twice.
pub open spec fn chain_ok<D: BlockDevice>(
    cm: &BlockCacheManager<D>,
    sb: SuperBlock,
    chain: Seq<usize>,
) -> bool {
    &&& chain.len() > 0
    &&& forall|i: int| 0 <= i < chain.len() ==> sb.valid_cluster(#[trigger] chain[i] as int)
    &&& forall|i: int|
        0 <= i < chain.len() - 1 ==> #[trigger] fat_entry(cm, chain[i] as int) == chain[i + 1]
    &&& fat_entry(cm, chain.last() as int) == FAT_EOC
    &&& chain.no_duplicates()
}

/// Number of clusters that `size` bytes take; one for an empty chain.
pub open spec fn clusters_needed(size: int, cluster_bytes: int) -> int {
    if size == 0 {
        1
    } else {
        size / cluster_bytes + if size % cluster_bytes == 0 {
            0int
        } else {
            1int
        }
    }
}

/// Where the FAT entries of valid clusters lie.
pub proof fn lemma_fat_layout(sb: SuperBlock, c: int, c2: int)
    requires
        sb.wf(),
        0 <= c < sb.end(),
        0 <= c2 < MAX_CLUSTERS,
    ensures
        512 <= fat_blk(c) < sb.data_start(),
        fat_blk(c) % 512 == 0,
        0 <= fat_off(c),
        fat_off(c) + 4 <= BLOCK_SIZE,
        sb.end() <= MAX_CLUSTERS,
        c2 != c && fat_blk(c2) == fat_blk(c) ==> fat_off(c2) + 4 <= fat_off(c) || fat_off(c) + 4
            <= fat_off(c2),
{
    assert(sb.end() == 256 * sb.sector_per_cluster - 128);
}

/// A cluster chain can hold no cluster twice: after a repeat the chain
/// would run on forever.
proof fn lemma_no_repeat<D: BlockDevice>(
    cm: &BlockCacheManager<D>,
    chain: Seq<usize>,
    i: int,
    j: int,
)
    requires
        forall|k: int|
            0 <= k < chain.len() - 1 ==> #[trigger] fat_entry(cm, chain[k] as int) == chain[k + 1],
        chain.len() > 0,
        fat_entry(cm, chain.last() as int) == FAT_EOC,
        forall|k: int| 0 <= k < chain.len() ==> #[trigger] chain[k] < FAT_EOC,
        0 <= i < j < chain.len(),
    ensures
        chain[i] != chain[j],
    decreases chain.len() - j,
{
    if chain[i] == chain[j] {
        if j == chain.len() - 1 {
            assert(fat_entry(cm, chain[i] as int) == chain[i + 1]);
            assert(chain[i + 1] < FAT_EOC);
        } else {
            assert(fat_entry(cm, chain[i] as int) == chain[i + 1]);
            assert(fat_entry(cm, chain[j] as int) == chain[j + 1]);
            lemma_no_repeat(cm, chain, i + 1, j + 1);
        }
    }
}

/// A chain of distinct clusters of the data region is no longer than the
/// region has clusters.
pub proof fn lemma_chain_len(sb: SuperBlock, chain: Seq<usize>)
    requires
        sb.wf(),
        forall|i: int| 0 <= i < chain.len() ==> sb.valid_cluster(#[trigger] chain[i] as int),
        chain.no_duplicates(),
    ensures
        chain.len() <= sb.end() - 2,
{
    let ints = chain.map_values(|x: usize| x as int);
    assert(ints.no_duplicates()) by {
        assert forall|i: int, j: int|
            0 <= i < ints.len() && 0 <= j < ints.len() && i != j implies ints[i] != ints[j] by {
            assert(chain[i] != chain[j]);
        }
    }
    ints.unique_seq_to_set();
    vstd::set_lib::lemma_int_range(2, sb.end());
    assert(ints.to_set().subset_of(vstd::set_lib::set_int_range(2, sb.end()))) by {
        assert forall|x: int| ints.to_set().contains(x) implies vstd::set_lib::set_int_range(
            2,
            sb.end(),
        ).contains(x) by {
            let k = choose|k: int| 0 <= k < ints.len() && ints[k] == x;
            assert(sb.valid_cluster(chain[k] as int));
        }
    }
    vstd::set_lib::lemma_len_subset(ints.to_set(), vstd::set_lib::set_int_range(2, sb.end()));
}

/// The FAT entry of cluster `c`.
pub fn read_fat<D: BlockDevice>(cm: &mut BlockCacheManager<D>, c: usize) -> (r: u32)
    requires
        old(cm).wf(),
        c < MAX_CLUSTERS,
    ensures
        final(cm).wf(),
        r == fat_entry(old(cm), c as int),
        same_blocks(final(cm), old(cm)),
{
    let blk = 512 * (1 + c / 128);
    let off = 4 * (c % 128);
    let bytes = cm.read(blk, off, 4);
    u32_from_le_bytes(bytes.as_slice())
}

/// Sets the FAT entry of cluster `c` to `v`; no other FAT entry and no block
/// but the one holding that entry changes.
pub fn write_fat<D: BlockDevice>(cm: &mut BlockCacheManager<D>, c: usize, v: u32)
    requires
        old(cm).wf(),
        c < MAX_CLUSTERS,
    ensures
        final(cm).wf(),
        fat_entry(final(cm), c as int) == v,
        forall|c2: int|
            0 <= c2 < MAX_CLUSTERS && c2 != c ==> #[trigger] fat_entry(final(cm), c2) == fat_entry(
                old(cm),
                c2,
            ),
        forall|a: int| a != fat_blk(c as int) ==> #[trigger] final(cm).block(a) == old(cm).block(a),
{
    let blk = 512 * (1 + c / 128);
    let off = 4 * (c % 128);
    let bytes = u32_to_le_bytes(v);
    cm.modify(blk, off, bytes.as_slice());
    proof {
        lemma_auto_spec_u32_to_from_le_bytes();
        let old_b = old(cm).block(blk as int);
        lemma_splice(old_b, off as int, bytes@);
        assert forall|c2: int|
            0 <= c2 < MAX_CLUSTERS && c2 != c implies #[trigger] fat_entry(cm, c2) == fat_entry(
            old(cm),
            c2,
        ) by {
            if fat_blk(c2) == blk {
                lemma_splice_outside(old_b, off as int, bytes@, fat_off(c2), 4);
            }
        }
    }
}

/// The in-memory state of the cluster allocator: a cursor over the FAT and
/// the clusters freed since the volume was mounted.
pub struct FATManager {
    pub(crate) current: usize,
    pub(crate) end: usize,
    pub(crate) recycled: Vec<usize>,
    pub(crate) sblock: SuperBlock,
}

impl FATManager {
    pub closed spec fn wf(&self) -> bool {
        &&& self.sblock.wf()
        &&& self.end == self.sblock.end()
        &&& 2 <= self.current <= self.end
        &&& forall|i: int|
            0 <= i < self.recycled@.len() ==> self.sblock.valid_cluster(
                #[trigger] self.recycled@[i] as int,
            )
    }

    /// The FAT entry the allocator's scan looks at next.
    pub closed spec fn cursor(&self) -> int {
        self.current as int
    }

    /// The superblock of the volume this allocator serves.
    pub closed spec fn sb(&self) -> SuperBlock {
        self.sblock
    }

    /// An allocator for the volume described by `sblock`, its cursor on the
    /// first free FAT entry.
    pub fn new<D: BlockDevice>(sblock: &SuperBlock, cm: &mut BlockCacheManager<D>) -> (r: Self)
        requires
            old(cm).wf(),
            sblock.wf(),
        ensures
            final(cm).wf(),
            same_blocks(final(cm), old(cm)),
            r.wf(),
            r.sb() == *sblock,
            r.recycled_view().len() == 0,
            forall|c: int| 2 <= c < r.cursor() ==> #[trigger] fat_entry(old(cm), c) != FAT_FREE,
            r.cursor() < sblock.end() ==> fat_entry(old(cm), r.cursor()) == FAT_FREE,
    {
        let end = sblock.fat_end();
        let mut current: usize = sblock.root_cluster;
        while current < end
            invariant
                cm.wf(),
                same_blocks(cm, old(cm)),
                sblock.wf(),
                end == sblock.end(),
                2 <= current <= end,
                forall|c: int| 2 <= c < current ==> #[trigger] fat_entry(old(cm), c) != FAT_FREE,
            ensures
                cm.wf(),
                same_blocks(cm, old(cm)),
                2 <= current <= end,
                forall|c: int| 2 <= c < current ==> #[trigger] fat_entry(old(cm), c) != FAT_FREE,
                current < end ==> fat_entry(old(cm), current as int) == FAT_FREE,
            decreases end - current,
        {
            proof {
                lemma_fat_layout(*sblock, current as int, 0);
                assert(cm.block(fat_blk(current as int)) == old(cm).block(fat_blk(current as int)));
            }
            if read_fat(cm, current) == FAT_FREE {
                break;
            }
            current += 1;
        }
        let r = FATManager { current, end, recycled: Vec::new(), sblock: *sblock };
        assert(r.cursor() < sblock.end() ==> fat_entry(old(cm), r.cursor()) == FAT_FREE);
        r
    }

    /// A cluster whose FAT entry reads free: a recycled one if there is one,
    /// else the next free one at or after the cursor.
    fn free_cluster<D: BlockDevice>(&mut self, cm: &mut BlockCacheManager<D>) -> (r: Option<usize>)
        requires
            old(self).wf(),
            old(cm).wf(),
        ensures
            final(self).wf(),
            final(self).sb() == old(self).sb(),
            final(cm).wf(),
            same_blocks(final(cm), old(cm)),
            r matches Some(c) ==> old(self).sb().valid_cluster(c as int) && fat_entry(
                old(cm),
                c as int,
            ) == FAT_FREE,
            r is None ==> free_set(old(cm), old(self).sb()) == Set::<int>::empty(),
            old(self).recycled_view().len() > 0 && fat_entry(
                old(cm),
                old(self).recycled_view().last() as int,
            ) == FAT_FREE ==> r == Some(old(self).recycled_view().last()),
    {
        while self.recycled.len() > 0
            invariant
                self.wf(),
                self.sblock == old(self).sblock,
                cm.wf(),
                same_blocks(cm, old(cm)),
                self.recycled@.len() <= old(self).recycled@.len(),
                self.recycled@ == old(self).recycled@.subrange(0, self.recycled@.len() as int),
                self.recycled@.len() < old(self).recycled@.len() ==> fat_entry(
                    old(cm),
                    old(self).recycled@.last() as int,
                ) != FAT_FREE,
            decreases self.recycled@.len(),
        {
            let ghost pending = self.recycled@;
            let c = self.recycled.pop().unwrap();
            proof {
                assert(pending[pending.len() - 1] == c);
                lemma_fat_layout(self.sblock, c as int, 0);
                if pending.len() == old(self).recycled@.len() {
                    assert(pending =~= old(self).recycled@);
                    assert(c == old(self).recycled@.last());
                }
                assert(self.recycled@ =~= pending.subrange(0, pending.len() - 1));
                assert(self.recycled@ =~= old(self).recycled@.subrange(0, self.recycled@.len() as int));
            }
            if read_fat(cm, c) == FAT_FREE {
                return Some(c);
            }
        }
        while self.current < self.end
            invariant
                self.wf(),
                self.sblock == old(self).sblock,
                cm.wf(),
                same_blocks(cm, old(cm)),
                old(self).recycled@.len() > 0 ==> fat_entry(old(cm), old(self).recycled@.last() as int)
                    != FAT_FREE,
            decreases self.end - self.current,
        {
            let c = self.current;
            self.current += 1;
            proof {
                lemma_fat_layout(self.sblock, c as int, 0);
            }
            if read_fat(cm, c) == FAT_FREE {
                return Some(c);
            }
        }
        let mut c: usize = self.sblock.root_cluster;
        while c < self.end
            invariant
                self.wf(),
                self.sblock == old(self).sblock,
                cm.wf(),
                same_blocks(cm, old(cm)),
                2 <= c <= self.end,
                forall|x: int| 2 <= x < c ==> #[trigger] fat_entry(old(cm), x) != FAT_FREE,
                old(self).recycled@.len() > 0 ==> fat_entry(old(cm), old(self).recycled@.last() as int)
                    != FAT_FREE,
            decreases self.end - c,
        {
            proof {
                lemma_fat_layout(self.sblock, c as int, 0);
            }
            if read_fat(cm, c) == FAT_FREE {
                self.current = c + 1;
                return Some(c);
            }
            c += 1;
        }
        proof {
            assert(free_set(old(cm), self.sblock) =~= Set::<int>::empty());
        }
        None
    }

    /// The clusters freed since mounting that may be handed out again, the
    /// most recently freed last.
    pub closed spec fn recycled_view(&self) -> Seq<usize> {
        self.recycled@
    }
}

/// The allocator holds a recycled cluster whose FAT entry in `cm` still
/// reads free: the next allocation starts with it.
pub open spec fn recycled_first<D: BlockDevice>(fat: &FATManager, cm: &BlockCacheManager<D>) -> bool {
    fat.recycled_view().len() > 0 && fat_entry(cm, fat.recycled_view().last() as int) == FAT_FREE
}

/// The clusters of the data region whose FAT entry in `cm` reads free.
pub open spec fn free_set<D: BlockDevice>(cm: &BlockCacheManager<D>, sb: SuperBlock) -> Set<int> {
    Set::new(|c: int| sb.valid_cluster(c) && fat_entry(cm, c) == FAT_FREE)
}

/// The free clusters are finitely many, no more than the data region holds.
pub proof fn lemma_free_set_finite<D: BlockDevice>(cm: &BlockCacheManager<D>, sb: SuperBlock)
    requires
        sb.wf(),
    ensures
        free_set(cm, sb).finite(),
        free_set(cm, sb).len() <= sb.end() - 2,
{
    vstd::set_lib::lemma_int_range(2, sb.end());
    assert(free_set(cm, sb).subset_of(vstd::set_lib::set_int_range(2, sb.end())));
    vstd::set_lib::lemma_len_subset(free_set(cm, sb), vstd::set_lib::set_int_range(2, sb.end()));
}

/// A free cluster makes the set of free clusters non-empty.
pub proof fn lemma_free_nonempty<D: BlockDevice>(cm: &BlockCacheManager<D>, sb: SuperBlock, x: int)
    requires
        sb.wf(),
        free_set(cm, sb).contains(x),
    ensures
        free_set(cm, sb).len() >= 1,
{
    lemma_free_set_finite(cm, sb);
    vstd::set::axiom_set_remove_len(free_set(cm, sb), x);
    vstd::set::axiom_set_remove_finite(free_set(cm, sb), x);
}

/// When every free cluster is one of `chain`'s, there are no more free
/// clusters than `chain` has.
pub proof fn lemma_free_within<D: BlockDevice>(
    cm: &BlockCacheManager<D>,
    sb: SuperBlock,
    chain: Seq<usize>,
)
    requires
        sb.wf(),
        chain.no_duplicates(),
        forall|c: int| #[trigger] free_set(cm, sb).contains(c) ==> chain.contains(c as usize),
    ensures
        free_set(cm, sb).len() <= chain.len(),
{
    lemma_free_set_finite(cm, sb);
    let ints = chain.map_values(|x: usize| x as int);
    assert(ints.no_duplicates()) by {
        assert forall|i: int, j: int|
            0 <= i < ints.len() && 0 <= j < ints.len() && i != j implies ints[i] != ints[j] by {
            assert(chain[i] != chain[j]);
        }
    }
    ints.unique_seq_to_set();
    assert(free_set(cm, sb).subset_of(ints.to_set())) by {
        assert forall|c: int| free_set(cm, sb).contains(c) implies ints.to_set().contains(c) by {
            let k = choose|k: int| 0 <= k < chain.len() && chain[k] == c as usize;
            assert(ints[k] == c);
        }
    }
    vstd::set_lib::lemma_len_subset(free_set(cm, sb), ints.to_set());
}

/// Marks the clusters of `chain` free and remembers them for reuse.
pub(crate) fn free_chain<D: BlockDevice>(
    fat: &mut FATManager,
    cm: &mut BlockCacheManager<D>,
    chain: &Vec<usize>,
)
    requires
        old(fat).wf(),
        old(cm).wf(),
        forall|i: int| 0 <= i < chain@.len() ==> old(fat).sb().valid_cluster(#[trigger] chain@[i] as int),
    ensures
        final(fat).wf(),
        final(fat).sb() == old(fat).sb(),
        final(cm).wf(),
        forall|i: int| 0 <= i < chain@.len() ==> #[trigger] fat_entry(final(cm), chain@[i] as int) == FAT_FREE,
        forall|c: int|
            0 <= c < MAX_CLUSTERS && !chain@.contains(c as usize) ==> #[trigger] fat_entry(final(cm), c)
                == fat_entry(old(cm), c),
        same_outside_fat(final(cm), old(cm), old(fat).sb()),
        final(fat).recycled_view() == old(fat).recycled_view() + chain@,
{
    let ghost sb = fat.sblock;
    let mut i: usize = 0;
    while i < chain.len()
        invariant
            fat.wf(),
            fat.sblock == sb,
            sb == old(fat).sb(),
            cm.wf(),
            i <= chain@.len(),
            forall|j: int| 0 <= j < chain@.len() ==> sb.valid_cluster(#[trigger] chain@[j] as int),
            forall|j: int| 0 <= j < i ==> #[trigger] fat_entry(cm, chain@[j] as int) == FAT_FREE,
            forall|c: int|
                0 <= c < MAX_CLUSTERS && !chain@.subrange(0, i as int).contains(c as usize)
                    ==> #[trigger] fat_entry(cm, c) == fat_entry(old(cm), c),
            same_outside_fat(cm, old(cm), sb),
            fat.recycled@ == old(fat).recycled@ + chain@.subrange(0, i as int),
        decreases chain@.len() - i,
    {
        let c = chain[i];
        proof {
            lemma_fat_layout(sb, c as int, 0);
        }
        write_fat(cm, c, FAT_FREE);
        fat.recycled.push(c);
        proof {
            assert forall|c2: int|
                0 <= c2 < MAX_CLUSTERS && !chain@.subrange(0, i + 1).contains(
                    c2 as usize,
                ) implies #[trigger] fat_entry(cm, c2) == fat_entry(old(cm), c2) by {
                if chain@.subrange(0, i as int).contains(c2 as usize) {
                    let k = choose|k: int| 0 <= k < i && chain@.subrange(0, i as int)[k] == c2 as usize;
                    assert(chain@.subrange(0, i + 1)[k] == c2 as usize);
                }
                assert(chain@.subrange(0, i + 1)[i as int] == c);
            }
            assert forall|j: int| 0 <= j < i + 1 implies #[trigger] fat_entry(cm, chain@[j] as int) == FAT_FREE by {
                if j < i && chain@[j] != c {
                    lemma_fat_layout(sb, chain@[j] as int, 0);
                }
            }
            assert forall|x: int| !(512 <= x < sb.data_start()) implies #[trigger] cm.block(x) == old(cm).block(x) by {
                lemma_fat_layout(sb, c as int, 0);
            }
            assert forall|k: int| 0 <= k < fat.recycled@.len() implies fat.sblock.valid_cluster(
                #[trigger] fat.recycled@[k] as int,
            ) by {}
            assert(fat.recycled@ =~= old(fat).recycled@ + chain@.subrange(0, i + 1));
        }
        i += 1;
    }
    assert(chain@.subrange(0, chain@.len() as int) =~= chain@);
}

/// Walks the chain that starts at `cluster`; `None` when the walk leaves the
/// data region or runs longer than the FAT has entries.
pub fn read_clusters<D: BlockDevice>(
    sb: &SuperBlock,
    cm: &mut BlockCacheManager<D>,
    cluster: usize,
) -> (r: Option<Vec<usize>>)
    requires
        old(cm).wf(),
        sb.wf(),
    ensures
        final(cm).wf(),
        same_blocks(final(cm), old(cm)),
        !sb.valid_cluster(cluster as int) ==> r is None,
        r matches Some(chain) ==> chain@[0] == cluster && chain_ok(old(cm), *sb, chain@),
        forall|ch: Seq<usize>|
            #[trigger] chain_ok(old(cm), *sb, ch) && ch[0] == cluster ==> r is Some && r.unwrap()@ == ch,
{
    let end = sb.fat_end();
    if cluster < sb.root_cluster || cluster >= end {
        return None;
    }
    let mut chain: Vec<usize> = Vec::new();
    chain.push(cluster);
    let mut cur = cluster;
    loop
        invariant
            cm.wf(),
            same_blocks(cm, old(cm)),
            sb.wf(),
            end == sb.end(),
            chain@.len() > 0,
            chain@.len() <= end,
            chain@[0] == cluster,
            cur == chain@.last(),
            forall|i: int| 0 <= i < chain@.len() ==> sb.valid_cluster(#[trigger] chain@[i] as int),
            forall|i: int|
                0 <= i < chain@.len() - 1 ==> #[trigger] fat_entry(old(cm), chain@[i] as int)
                    == chain@[i + 1],
            forall|ch: Seq<usize>|
                #[trigger] chain_ok(old(cm), *sb, ch) && ch[0] == cluster ==> chain@.len() <= ch.len()
                    && chain@ == ch.subrange(0, chain@.len() as int),
        decreases end - chain@.len(),
    {
        proof {
            lemma_fat_layout(*sb, cur as int, 0);
        }
        let next = read_fat(cm, cur);
        if next == FAT_EOC {
            proof {
                assert forall|i: int, j: int|
                    0 <= i < chain@.len() && 0 <= j < chain@.len() && i != j implies chain@[i]
                    != chain@[j] by {
                    assert forall|k: int| 0 <= k < chain@.len() implies #[trigger] chain@[k] < FAT_EOC by {
                        lemma_fat_layout(*sb, chain@[k] as int, 0);
                    }
                    if i < j {
                        lemma_no_repeat(old(cm), chain@, i, j);
                    } else {
                        lemma_no_repeat(old(cm), chain@, j, i);
                    }
                }
            }
            proof {
                assert forall|ch: Seq<usize>|
                    #[trigger] chain_ok(old(cm), *sb, ch) && ch[0] == cluster implies chain@ == ch by {
                    let n = chain@.len() as int;
                    if n < ch.len() {
                        assert(fat_entry(old(cm), ch[n - 1] as int) == ch[n]);
                        assert(ch[n - 1] == chain@[n - 1]);
                        lemma_fat_layout(*sb, ch[n] as int, 0);
                    }
                    assert(chain@ =~= ch);
                }
            }
            return Some(chain);
        }
        if (next as usize) < sb.root_cluster || next as usize >= end || chain.len() >= end {
            proof {
                assert forall|ch: Seq<usize>|
                    #[trigger] chain_ok(old(cm), *sb, ch) && ch[0] == cluster implies false by {
                    let n = chain@.len() as int;
                    lemma_chain_len(*sb, ch);
                    if n < ch.len() {
                        assert(fat_entry(old(cm), ch[n - 1] as int) == ch[n]);
                        assert(ch[n - 1] == chain@[n - 1]);
                        assert(sb.valid_cluster(ch[n] as int));
                    } else {
                        assert(ch[n - 1] == chain@[n - 1]);
                        assert(ch.last() == ch[n - 1]);
                    }
                }
            }
            return None;
        }
        let ghost prev = chain@;
        chain.push(next as usize);
        cur = next as usize;
        proof {
            assert forall|ch: Seq<usize>|
                #[trigger] chain_ok(old(cm), *sb, ch) && ch[0] == cluster implies chain@.len() <= ch.len()
                && chain@ == ch.subrange(0, chain@.len() as int) by {
                let n = prev.len() as int;
                assert(ch[n - 1] == prev[n - 1]);
                if n == ch.len() {
                    assert(ch.last() == ch[n - 1]);
                }
                assert(fat_entry(old(cm), ch[n - 1] as int) == ch[n]);
                assert(chain@ =~= ch.subrange(0, chain@.len() as int));
            }
        }
    }
}

/// Frees the chain that starts at `cluster`; `None`, with nothing changed,
/// when that chain cannot be walked.
pub fn dealloc_clusters<D: BlockDevice>(
    fat: &mut FATManager,
    cm: &mut BlockCacheManager<D>,
    cluster: usize,
) -> (r: Option<Vec<usize>>)
    requires
        old(fat).wf(),
        old(cm).wf(),
    ensures
        final(fat).wf(),
        final(fat).sb() == old(fat).sb(),
        final(cm).wf(),
        same_outside_fat(final(cm), old(cm), old(fat).sb()),
        r is None ==> same_blocks(final(cm), old(cm)),
        r is None ==> final(fat).recycled_view() == old(fat).recycled_view(),
        r matches Some(chain) ==> final(fat).recycled_view() == old(fat).recycled_view() + chain@,
        forall|ch: Seq<usize>|
            #[trigger] chain_ok(old(cm), old(fat).sb(), ch) && ch[0] == cluster ==> r is Some
                && r.unwrap()@ == ch,
        r matches Some(chain) ==> {
            &&& chain@[0] == cluster
            &&& chain_ok(old(cm), old(fat).sb(), chain@)
            &&& forall|i: int|
                0 <= i < chain@.len() ==> #[trigger] fat_entry(final(cm), chain@[i] as int)
                    == FAT_FREE
            &&& forall|c: int|
                0 <= c < MAX_CLUSTERS && !chain@.contains(c as usize) ==> #[trigger] fat_entry(
                    final(cm),
                    c,
                ) == fat_entry(old(cm), c)
        },
{
    let sb = fat.sblock;
    let ghost cm0 = *cm;
    match read_clusters(&sb, cm, cluster) {
        None => None,
        Some(chain) => {
            free_chain(fat, cm, &chain);
            proof {
                assert forall|c: int|
                    0 <= c < MAX_CLUSTERS implies #[trigger] fat_entry(&cm0, c) == fat_entry(old(cm), c) by {
                    assert(cm0.block(fat_blk(c)) == old(cm).block(fat_blk(c)));
                }
                assert forall|x: int| !(512 <= x < sb.data_start()) implies #[trigger] cm.block(x) == old(cm).block(x) by {
                    assert(cm0.block(x) == old(cm).block(x));
                }
            }
            Some(chain)
        }
    }
}

/// `clusters_needed` clusters hold `size` bytes.
pub proof fn lemma_clusters_needed(size: int, cluster_bytes: int)
    requires
        size >= 0,
        cluster_bytes > 0,
    ensures
        clusters_needed(size, cluster_bytes) >= 1,
        clusters_needed(size, cluster_bytes) * cluster_bytes >= size,
{
    vstd::arithmetic::div_mod::lemma_fundamental_div_mod(size, cluster_bytes);
    vstd::arithmetic::div_mod::lemma_mod_bound(size, cluster_bytes);
    vstd::arithmetic::div_mod::lemma_div_pos_is_pos(size, cluster_bytes);
    let q = size / cluster_bytes;
    let m = size % cluster_bytes;
    if size > 0 {
        if m == 0 {
            assert(q >= 1) by (nonlinear_arith)
                requires
                    size == cluster_bytes * q + m,
                    m == 0,
                    size > 0,
                    cluster_bytes > 0,
            ;
            assert(q * cluster_bytes >= size) by (nonlinear_arith)
                requires
                    size == cluster_bytes * q + m,
                    m == 0,
            ;
        } else {
            assert((q + 1) * cluster_bytes >= size) by (nonlinear_arith)
                requires
                    size == cluster_bytes * q + m,
                    m < cluster_bytes,
            ;
        }
    } else {
        assert(1 * cluster_bytes >= size);
    }
}

/// Number of clusters that `size` bytes take; one for an empty chain.
pub fn num_clusters(size: usize, cluster_bytes: usize) -> (r: usize)
    requires
        cluster_bytes > 0,
    ensures
        r == clusters_needed(size as int, cluster_bytes as int),
        r >= 1,
        r * cluster_bytes >= size,
        size > 0 ==> (r - 1) * cluster_bytes < size,
{
    proof {
        vstd::arithmetic::div_mod::lemma_fundamental_div_mod(size as int, cluster_bytes as int);
        vstd::arithmetic::div_mod::lemma_mod_bound(size as int, cluster_bytes as int);
        vstd::arithmetic::div_mod::lemma_div_pos_is_pos(size as int, cluster_bytes as int);
    }
    if size == 0 {
        1
    } else if size % cluster_bytes == 0 {
        proof {
            let q = size as int / cluster_bytes as int;
            assert(q >= 1) by (nonlinear_arith)
                requires
                    size as int == cluster_bytes * q + 0,
                    size > 0,
                    cluster_bytes > 0,
            ;
            assert((q - 1) * cluster_bytes < size) by (nonlinear_arith)
                requires
                    size as int == cluster_bytes * q,
                    cluster_bytes > 0,
            ;
            assert(q * cluster_bytes >= size) by (nonlinear_arith)
                requires
                    size as int == cluster_bytes * q,
            ;
        }
        size / cluster_bytes
    } else {
        proof {
            let q = size as int / cluster_bytes as int;
            let m = size as int % cluster_bytes as int;
            assert((q + 1) * cluster_bytes >= size) by (nonlinear_arith)
                requires
                    size as int == cluster_bytes * q + m,
                    m < cluster_bytes,
            ;
            assert(q * cluster_bytes < size) by (nonlinear_arith)
                requires
                    size as int == cluster_bytes * q + m,
                    m > 0,
            ;
            assert(q < size) by (nonlinear_arith)
                requires
                    size as int == cluster_bytes * q + m,
                    m > 0,
                    q >= 0,
                    cluster_bytes >= 1,
            ;
        }
        size / cluster_bytes + 1
    }
}

/// Allocates a chain long enough for `size` bytes (one cluster at least):
/// its clusters were free and now form a chain; no other FAT entry and no
/// block outside the FAT changes. `None` when too few free clusters were
/// found; the FAT then reads as before.
pub fn alloc_clusters<D: BlockDevice>(
    fat: &mut FATManager,
    cm: &mut BlockCacheManager<D>,
    size: usize,
) -> (r: Option<Vec<usize>>)
    requires
        old(fat).wf(),
        old(cm).wf(),
    ensures
        final(fat).wf(),
        final(fat).sb() == old(fat).sb(),
        final(cm).wf(),
        same_outside_fat(final(cm), old(cm), old(fat).sb()),
        r is None ==> forall|c: int|
            0 <= c < MAX_CLUSTERS ==> #[trigger] fat_entry(final(cm), c) == fat_entry(old(cm), c),
        r is None ==> free_set(old(cm), old(fat).sb()).len() < clusters_needed(
            size as int,
            old(fat).sb().cluster_bytes(),
        ),
        r matches Some(chain) ==> {
            &&& chain@.len() == clusters_needed(size as int, old(fat).sb().cluster_bytes())
            &&& chain_ok(final(cm), old(fat).sb(), chain@)
            &&& forall|i: int|
                0 <= i < chain@.len() ==> #[trigger] fat_entry(old(cm), chain@[i] as int)
                    == FAT_FREE
            &&& forall|c: int|
                0 <= c < MAX_CLUSTERS && !chain@.contains(c as usize) ==> #[trigger] fat_entry(
                    final(cm),
                    c,
                ) == fat_entry(old(cm), c)
        },
        r matches Some(chain) ==> (recycled_first(old(fat), old(cm)) ==> chain@[0]
            == old(fat).recycled_view().last()),
{
    let sb = fat.sblock;
    let n = num_clusters(size, sb.sector_per_cluster * BLOCK_SIZE);
    let mut chain: Vec<usize> = Vec::new();
    while chain.len() < n
        invariant
            n == clusters_needed(size as int, sb.cluster_bytes()),
            fat.wf(),
            fat.sblock == sb,
            sb == old(fat).sb(),
            cm.wf(),
            chain@.len() <= n,
            chain@.no_duplicates(),
            forall|i: int| 0 <= i < chain@.len() ==> sb.valid_cluster(#[trigger] chain@[i] as int),
            forall|i: int|
                0 <= i < chain@.len() ==> #[trigger] fat_entry(old(cm), chain@[i] as int) == FAT_FREE,
            forall|i: int| 0 <= i < chain@.len() ==> #[trigger] fat_entry(cm, chain@[i] as int) == FAT_EOC,
            forall|c: int|
                0 <= c < MAX_CLUSTERS && !chain@.contains(c as usize) ==> #[trigger] fat_entry(cm, c)
                    == fat_entry(old(cm), c),
            same_outside_fat(cm, old(cm), sb),
            chain@.len() == 0 ==> fat.recycled_view() == old(fat).recycled_view(),
            chain@.len() > 0 && recycled_first(old(fat), old(cm)) ==> chain@[0]
                == old(fat).recycled_view().last(),
        decreases n - chain@.len(),
    {
        let ghost cm1 = *cm;
        proof {
            if chain@.len() == 0 && recycled_first(old(fat), old(cm)) {
                let last = old(fat).recycled_view().last();
                assert(fat.recycled@[fat.recycled@.len() - 1] == last);
                assert(sb.valid_cluster(last as int));
                assert(fat_entry(&cm1, last as int) == fat_entry(old(cm), last as int));
            }
        }
        match fat.free_cluster(cm) {
            Some(c) => {
                proof {
                    lemma_fat_layout(sb, c as int, 0);
                    assert(!chain@.contains(c)) by {
                        if chain@.contains(c) {
                            let k = choose|k: int| 0 <= k < chain@.len() && chain@[k] == c;
                            assert(fat_entry(&cm1, chain@[k] as int) == FAT_EOC);
                            assert(cm1.block(fat_blk(c as int)) == cm.block(fat_blk(c as int)));
                        }
                    }
                    assert(fat_entry(&cm1, c as int) == fat_entry(old(cm), c as int));
                    assert(cm1.block(fat_blk(c as int)) == cm.block(fat_blk(c as int)));
                }
                let ghost cm2 = *cm;
                write_fat(cm, c, FAT_EOC);
                let ghost prev = chain@;
                chain.push(c);
                proof {
                    assert forall|c2: int|
                        0 <= c2 < MAX_CLUSTERS && !chain@.contains(c2 as usize) implies #[trigger] fat_entry(
                        cm,
                        c2,
                    ) == fat_entry(old(cm), c2) by {
                        assert(chain@[prev.len() as int] == c);
                        assert(!prev.contains(c2 as usize)) by {
                            if prev.contains(c2 as usize) {
                                let k = choose|k: int| 0 <= k < prev.len() && prev[k] == c2 as usize;
                                assert(chain@[k] == c2 as usize);
                            }
                        }
                        assert(cm2.block(fat_blk(c2)) == cm1.block(fat_blk(c2)));
                        assert(c2 != c);
                        assert(fat_entry(cm, c2) == fat_entry(&cm2, c2));
                        assert(fat_entry(&cm2, c2) == fat_entry(&cm1, c2));
                        assert(fat_entry(&cm1, c2) == fat_entry(old(cm), c2));
                    }
                    assert forall|i: int| 0 <= i < chain@.len() implies #[trigger] fat_entry(
                        cm,
                        chain@[i] as int,
                    ) == FAT_EOC by {
                        if i < prev.len() {
                            assert(chain@[i] == prev[i]);
                            assert(cm2.block(fat_blk(prev[i] as int)) == cm1.block(fat_blk(prev[i] as int)));
                            lemma_fat_layout(sb, prev[i] as int, 0);
                            assert(prev[i] != c);
                            assert(fat_entry(&cm1, prev[i] as int) == FAT_EOC);
                            assert(fat_entry(&cm2, prev[i] as int) == FAT_EOC);
                            assert(fat_entry(cm, prev[i] as int) == FAT_EOC);
                        }
                    }
                    assert forall|i: int| 0 <= i < chain@.len() implies #[trigger] fat_entry(
                        old(cm),
                        chain@[i] as int,
                    ) == FAT_FREE by {
                        if i < prev.len() {
                            assert(chain@[i] == prev[i]);
                        }
                    }
                    assert forall|i: int| 0 <= i < chain@.len() implies sb.valid_cluster(
                        #[trigger] chain@[i] as int,
                    ) by {
                        if i < prev.len() {
                            assert(chain@[i] == prev[i]);
                        }
                    }
                    assert forall|x: int| !(512 <= x < sb.data_start()) implies #[trigger] cm.block(x)
                        == old(cm).block(x) by {
                        assert(cm2.block(x) == cm1.block(x));
                    }
                }
            },
            None => {
                proof {
                    assert forall|c2: int| 0 <= c2 < MAX_CLUSTERS implies #[trigger] fat_entry(cm, c2)
                        == fat_entry(&cm1, c2) by {
                        assert(cm.block(fat_blk(c2)) == cm1.block(fat_blk(c2)));
                    }
                    assert forall|c2: int| #[trigger] free_set(old(cm), sb).contains(c2) implies chain@.contains(c2 as usize) by {
                        lemma_fat_layout(sb, c2, 0);
                        if !chain@.contains(c2 as usize) {
                            assert(fat_entry(&cm1, c2) == fat_entry(old(cm), c2));
                            assert(free_set(&cm1, sb).contains(c2));
                        }
                    }
                    lemma_free_within(old(cm), sb, chain@);
                    assert(chain@.len() < n);
                    assert(free_set(old(cm), sb).len() < n);
                    assert forall|x: int| !(512 <= x < sb.data_start()) implies #[trigger] cm.block(x)
                        == old(cm).block(x) by {
                        assert(cm.block(x) == cm1.block(x));
                    }
                }
                free_chain(fat, cm, &chain);
                proof {
                    assert forall|c2: int| 0 <= c2 < MAX_CLUSTERS implies #[trigger] fat_entry(cm, c2)
                        == fat_entry(old(cm), c2) by {
                        if chain@.contains(c2 as usize) {
                            let k = choose|k: int| 0 <= k < chain@.len() && chain@[k] == c2 as usize;
                            assert(fat_entry(cm, chain@[k] as int) == FAT_FREE);
                            assert(fat_entry(old(cm), chain@[k] as int) == FAT_FREE);
                        }
                    }
                    assert(n == clusters_needed(size as int, old(fat).sb().cluster_bytes()));
                    assert(free_set(old(cm), old(fat).sb()).len() < n);
                }
                return None;
            },
        }
    }
    let ghost linked = chain@;
    let mut i: usize = 0;
    while i + 1 < chain.len()
        invariant
            linked.len() > 0 && recycled_first(old(fat), old(cm)) ==> linked[0]
                == old(fat).recycled_view().last(),
            fat.wf(),
            fat.sblock == sb,
            sb == old(fat).sb(),
            cm.wf(),
            chain@ == linked,
            chain@.len() == n,
            n >= 1,
            i < n,
            chain@.no_duplicates(),
            forall|k: int| 0 <= k < chain@.len() ==> sb.valid_cluster(#[trigger] chain@[k] as int),
            forall|k: int|
                0 <= k < chain@.len() ==> #[trigger] fat_entry(old(cm), chain@[k] as int) == FAT_FREE,
            forall|k: int| 0 <= k < i ==> #[trigger] fat_entry(cm, chain@[k] as int) == chain@[k + 1],
            forall|k: int| i <= k < chain@.len() ==> #[trigger] fat_entry(cm, chain@[k] as int) == FAT_EOC,
            forall|c: int|
                0 <= c < MAX_CLUSTERS && !chain@.contains(c as usize) ==> #[trigger] fat_entry(cm, c)
                    == fat_entry(old(cm), c),
            same_outside_fat(cm, old(cm), sb),
        decreases n - i,
    {
        let ghost cm1 = *cm;
        proof {
            lemma_fat_layout(sb, chain@[i as int] as int, 0);
            lemma_fat_layout(sb, chain@[i + 1] as int, 0);
        }
        write_fat(cm, chain[i], chain[i + 1] as u32);
        proof {
            assert forall|k: int| 0 <= k < i + 1 implies #[trigger] fat_entry(cm, chain@[k] as int)
                == chain@[k + 1] by {
                if k < i {
                    lemma_fat_layout(sb, chain@[k] as int, 0);
                    assert(chain@[k] != chain@[i as int]);
                }
            }
            assert forall|k: int| i + 1 <= k < chain@.len() implies #[trigger] fat_entry(
                cm,
                chain@[k] as int,
            ) == FAT_EOC by {
                lemma_fat_layout(sb, chain@[k] as int, 0);
                assert(chain@[k] != chain@[i as int]);
            }
            assert forall|c: int|
                0 <= c < MAX_CLUSTERS && !chain@.contains(c as usize) implies #[trigger] fat_entry(cm, c)
                == fat_entry(old(cm), c) by {
                assert(c != chain@[i as int]);
            }
            assert forall|x: int| !(512 <= x < sb.data_start()) implies #[trigger] cm.block(x)
                == old(cm).block(x) by {
                assert(cm.block(x) == cm1.block(x));
            }
        }
        i += 1;
    }
    Some(chain)
}

/// Allocates a chain for `size` bytes and links it after `end_cluster`, the
/// last cluster of an existing chain.
pub fn increase_cluster<D: BlockDevice>(
    fat: &mut FATManager,
    cm: &mut BlockCacheManager<D>,
    end_cluster: usize,
    size: usize,
) -> (r: Option<Vec<usize>>)
    requires
        old(fat).wf(),
        old(cm).wf(),
        old(fat).sb().valid_cluster(end_cluster as int),
        fat_entry(old(cm), end_cluster as int) == FAT_EOC,
    ensures
        final(fat).wf(),
        final(fat).sb() == old(fat).sb(),
        final(cm).wf(),
        same_outside_fat(final(cm), old(cm), old(fat).sb()),
        r is None ==> forall|c: int|
            0 <= c < MAX_CLUSTERS ==> #[trigger] fat_entry(final(cm), c) == fat_entry(old(cm), c),
        r is None ==> free_set(old(cm), old(fat).sb()).len() < clusters_needed(
            size as int,
            old(fat).sb().cluster_bytes(),
        ),
        r matches Some(chain) ==> {
            &&& chain@.len() == clusters_needed(size as int, old(fat).sb().cluster_bytes())
            &&& chain_ok(final(cm), old(fat).sb(), chain@)
            &&& fat_entry(final(cm), end_cluster as int) == chain@[0]
            &&& forall|i: int|
                0 <= i < chain@.len() ==> #[trigger] fat_entry(old(cm), chain@[i] as int)
                    == FAT_FREE
            &&& forall|c: int|
                0 <= c < MAX_CLUSTERS && c != end_cluster && !chain@.contains(c as usize)
                    ==> #[trigger] fat_entry(final(cm), c) == fat_entry(old(cm), c)
        },
{
    let ghost sb = fat.sblock;
    match alloc_clusters(fat, cm, size) {
        None => None,
        Some(chain) => {
            let ghost cm1 = *cm;
            proof {
                lemma_fat_layout(sb, end_cluster as int, 0);
                assert(!chain@.contains(end_cluster)) by {
                    if chain@.contains(end_cluster) {
                        let k = choose|k: int| 0 <= k < chain@.len() && chain@[k] == end_cluster;
                        assert(fat_entry(old(cm), chain@[k] as int) == FAT_FREE);
                    }
                }
                assert(fat_entry(&cm1, end_cluster as int) == fat_entry(old(cm), end_cluster as int));
            }
            write_fat(cm, end_cluster, chain[0] as u32);
            proof {
                assert(chain_ok(&cm1, sb, chain@));
                assert forall|k: int| 0 <= k < chain@.len() - 1 implies #[trigger] fat_entry(
                    cm,
                    chain@[k] as int,
                ) == chain@[k + 1] by {
                    lemma_fat_layout(sb, chain@[k] as int, 0);
                    assert(chain@[k] != end_cluster);
                    assert(fat_entry(&cm1, chain@[k] as int) == chain@[k + 1]);
                }
                lemma_fat_layout(sb, chain@.last() as int, 0);
                assert(chain@.last() != end_cluster);
                assert forall|x: int| !(512 <= x < sb.data_start()) implies #[trigger] cm.block(x)
                    == old(cm).block(x) by {
                    lemma_fat_layout(sb, end_cluster as int, 0);
                    assert(cm.block(x) == cm1.block(x));
                }
            }
            Some(chain)
        },
    }
}

/// Seeds the FAT of a fresh volume: clusters 0 and 1 reserved, the root
/// cluster a one-cluster chain, every other entry free.
pub fn create_fat<D: BlockDevice>(sblock: &SuperBlock, cm: &mut BlockCacheManager<D>)
    requires
        old(cm).wf(),
        sblock.wf(),
    ensures
        final(cm).wf(),
        same_outside_fat(final(cm), old(cm), *sblock),
        fat_entry(final(cm), 0) == FAT_RESERVED,
        fat_entry(final(cm), 1) == FAT_RESERVED,
        fat_entry(final(cm), 2) == FAT_EOC,
        forall|c: int| 3 <= c < sblock.end() ==> #[trigger] fat_entry(final(cm), c) == FAT_FREE,
{
    let end = sblock.fat_end();
    proof {
        lemma_fat_layout(*sblock, 0, 0);
        lemma_fat_layout(*sblock, 1, 0);
        lemma_fat_layout(*sblock, 2, 0);
    }
    write_fat(cm, 0, FAT_RESERVED);
    write_fat(cm, 1, FAT_RESERVED);
    write_fat(cm, 2, FAT_EOC);
    let mut c: usize = 3;
    while c < end
        invariant
            cm.wf(),
            sblock.wf(),
            end == sblock.end(),
            3 <= c <= end || end < 3,
            same_outside_fat(cm, old(cm), *sblock),
            fat_entry(cm, 0) == FAT_RESERVED,
            fat_entry(cm, 1) == FAT_RESERVED,
            fat_entry(cm, 2) == FAT_EOC,
            forall|c2: int| 3 <= c2 < c ==> #[trigger] fat_entry(cm, c2) == FAT_FREE,
        decreases end - c,
    {
        let ghost cm1 = *cm;
        proof {
            lemma_fat_layout(*sblock, c as int, 0);
        }
        write_fat(cm, c, FAT_FREE);
        proof {
            assert forall|x: int| !(512 <= x < sblock.data_start()) implies #[trigger] cm.block(x)
                == old(cm).block(x) by {
                assert(cm.block(x) == cm1.block(x));
            }
        }
        c += 1;
    }
}

/// An allocator for the volume `sblock` describes, on the FAT in `cm`.
pub fn init_fat_manager<D: BlockDevice>(sblock: &SuperBlock, cm: &mut BlockCacheManager<D>) -> (r:
    FATManager)
    requires
        old(cm).wf(),
        sblock.wf(),
    ensures
        final(cm).wf(),
        same_blocks(final(cm), old(cm)),
        r.wf(),
        r.sb() == *sblock,
        r.recycled_view().len() == 0,
        forall|c: int| 2 <= c < r.cursor() ==> #[trigger] fat_entry(old(cm), c) != FAT_FREE,
        r.cursor() < sblock.end() ==> fat_entry(old(cm), r.cursor()) == FAT_FREE,
{
    FATManager::new(sblock, cm)
}

} // verus!
