use vstd::prelude::*;
use vstd::string::StringSliceAdditionalSpecFns;

use crate::cache::{lemma_splice, BlockCacheManager};
use crate::chain::{
    cluster_of, clusters_valid, lemma_sector, lemma_sector_distinct, n_sectors, sector_addr,
    sector_of, zero_block, zero_cluster,
};
use crate::device::BlockDevice;
use crate::file::{chain_has, in_chain, FileEntry};
use crate::fat::{free_set, alloc_clusters, chain_ok, fat_blk, fat_entry, increase_cluster, lemma_fat_layout, read_clusters, same_blocks, same_outside_fat, FAT_FREE};
use crate::inode::{u32_at, slot_size, decodes, lemma_inode_round_trip, slot_cluster, slot_name, slot_type, slot_valid, INode, INodeType, INODE_BYTES, NAME_CAP};
use crate::sblock::SuperBlock;
use crate::system::FileSystem;
use crate::{illegal_name, is_illegal, BLOCK_SIZE};

verus! {

/// Why a directory operation failed.
#[derive(Debug, PartialEq, Eq, Structural)]
pub enum DirError {
    NotFound,
    NotFoundDir,
    NotFoundFile,
    IllegalChar,
    DirExist,
    FileExist,
    /// The volume has no free cluster left for the new data.
    NoSpace,
}

/// The sectors of the directory stored in `chain`, one entry slot each, in
/// chain order.
pub open spec fn dir_slots<D: BlockDevice>(
    cm: &BlockCacheManager<D>,
    sb: SuperBlock,
    chain: Seq<usize>,
) -> Seq<Seq<u8>> {
    Seq::new(n_sectors(sb, chain) as nat, |k: int| cm.block(sector_addr(sb, chain, k)))
}

/// Index of the first free slot at or after `k` (the number of slots if
/// there is none).
pub open spec fn live_from(s: Seq<Seq<u8>>, k: int) -> int
    decreases s.len() - k,
{
    if k < 0 || k >= s.len() || !slot_valid(s[k]) {
        k
    } else {
        live_from(s, k + 1)
    }
}

/// Number of entries a directory lists: the slots before its first free one.
pub open spec fn live_len(s: Seq<Seq<u8>>) -> int {
    live_from(s, 0)
}

/// Whether an entry the directory lists is named `name`.
pub open spec fn has_name(s: Seq<Seq<u8>>, name: Seq<u8>) -> bool {
    exists|j: int| 0 <= j < live_len(s) && #[trigger] slot_name(s[j]) == name
}

proof fn lemma_live_from(s: Seq<Seq<u8>>, i: int)
    requires
        0 <= i <= s.len(),
    ensures
        i <= live_from(s, i) <= s.len(),
        forall|j: int| i <= j < live_from(s, i) ==> slot_valid(#[trigger] s[j]),
        live_from(s, i) < s.len() ==> !slot_valid(s[live_from(s, i)]),
    decreases s.len() - i,
{
    if i < s.len() && slot_valid(s[i]) {
        lemma_live_from(s, i + 1);
    }
}

/// What a directory lists: every slot before the first free one holds an
/// entry, and that one (if any) does not.
pub proof fn lemma_live_len(s: Seq<Seq<u8>>)
    ensures
        0 <= live_len(s) <= s.len(),
        forall|j: int| 0 <= j < live_len(s) ==> slot_valid(#[trigger] s[j]),
        live_len(s) < s.len() ==> !slot_valid(s[live_len(s)]),
{
    lemma_live_from(s, 0);
}

proof fn lemma_live_at(s: Seq<Seq<u8>>, i: int, k: int)
    requires
        0 <= i <= k <= s.len(),
        forall|j: int| 0 <= j < k ==> slot_valid(#[trigger] s[j]),
        k == s.len() || !slot_valid(s[k]),
    ensures
        live_from(s, i) == k,
    decreases k - i,
{
    if i < k {
        lemma_live_at(s, i + 1, k);
    }
}

/// The number of listed entries is the first `k` whose slot is free.
pub proof fn lemma_live_is(s: Seq<Seq<u8>>, k: int)
    requires
        0 <= k <= s.len(),
        forall|j: int| 0 <= j < k ==> slot_valid(#[trigger] s[j]),
        k == s.len() || !slot_valid(s[k]),
    ensures
        live_len(s) == k,
{
    lemma_live_at(s, 0, k);
}

/// A chain stays a chain while the FAT entries of its clusters stay.
pub proof fn lemma_chain_ok_frame<D: BlockDevice>(
    c1: &BlockCacheManager<D>,
    c2: &BlockCacheManager<D>,
    sb: SuperBlock,
    chain: Seq<usize>,
)
    requires
        chain_ok(c1, sb, chain),
        forall|i: int| 0 <= i < chain.len() ==> #[trigger] fat_entry(c2, chain[i] as int) == fat_entry(c1, chain[i] as int),
    ensures
        chain_ok(c2, sb, chain),
{
    assert(fat_entry(c2, chain.last() as int) == fat_entry(c1, chain[chain.len() - 1] as int));
}

/// A chain stays a chain while every block reads the same.
pub proof fn lemma_chain_ok_same<D: BlockDevice>(
    c1: &BlockCacheManager<D>,
    c2: &BlockCacheManager<D>,
    sb: SuperBlock,
    chain: Seq<usize>,
)
    requires
        chain_ok(c1, sb, chain),
        same_blocks(c2, c1),
    ensures
        chain_ok(c2, sb, chain),
{
    assert forall|i: int| 0 <= i < chain.len() implies #[trigger] fat_entry(c2, chain[i] as int)
        == fat_entry(c1, chain[i] as int) by {
        assert(c2.block(fat_blk(chain[i] as int)) == c1.block(fat_blk(chain[i] as int)));
    }
    lemma_chain_ok_frame(c1, c2, sb, chain);
}

/// Clusters of a chain are in use: their FAT entries are not free.
pub proof fn lemma_chain_in_use<D: BlockDevice>(
    cm: &BlockCacheManager<D>,
    sb: SuperBlock,
    chain: Seq<usize>,
    i: int,
)
    requires
        sb.wf(),
        chain_ok(cm, sb, chain),
        0 <= i < chain.len(),
    ensures
        fat_entry(cm, chain[i] as int) != FAT_FREE,
{
    if i < chain.len() - 1 {
        assert(sb.valid_cluster(chain[i + 1] as int));
    } else {
        assert(chain[i] == chain.last());
    }
}

/// Whether the bytes `a` and `b` are the same.
fn bytes_eq(a: &[u8], b: &[u8]) -> (r: bool)
    ensures
        r == (a@ == b@),
{
    if a.len() != b.len() {
        return false;
    }
    let mut i: usize = 0;
    while i < a.len()
        invariant
            a@.len() == b@.len(),
            i <= a@.len(),
            forall|j: int| 0 <= j < i ==> a@[j] == b@[j],
        decreases a@.len() - i,
    {
        if a[i] != b[i] {
            return false;
        }
        i += 1;
    }
    assert(a@ =~= b@);
    true
}

/// Number of sectors in `chain`.
pub fn chain_sectors(sb: &SuperBlock, chain: &Vec<usize>) -> (r: usize)
    requires
        sb.wf(),
        clusters_valid(*sb, chain@),
    ensures
        r == n_sectors(*sb, chain@),
        r <= 256 * 128 * 128,
{
    proof {
        crate::fat::lemma_chain_len(*sb, chain@);
        assert(sb.end() == 256 * sb.sector_per_cluster - 128);
        assert(chain@.len() * sb.sector_per_cluster <= (256 * sb.sector_per_cluster) * sb.sector_per_cluster) by (nonlinear_arith)
            requires
                chain@.len() <= 256 * sb.sector_per_cluster,
        ;
        assert((256 * sb.sector_per_cluster) * sb.sector_per_cluster <= 256 * 128 * 128) by (nonlinear_arith)
            requires
                sb.sector_per_cluster <= 128,
        ;
    }
    chain.len() * sb.sector_per_cluster
}

/// Every block outside the FAT reads through `b` as through `a`, or, in the
/// data region, as zeros.
pub open spec fn only_zeroed<D: BlockDevice>(
    a: &BlockCacheManager<D>,
    b: &BlockCacheManager<D>,
    sb: SuperBlock,
) -> bool {
    forall|x: int|
        !(512 <= x < sb.data_start()) ==> #[trigger] b.block(x) == a.block(x) || (x >= sb.data_start()
            && b.block(x) == zero_block())
}

/// Zeroing slots, among them the first one named `name`, leaves no listed
/// entry with that name.
pub proof fn lemma_zeroed_no_name(s0: Seq<Seq<u8>>, s1: Seq<Seq<u8>>, name: Seq<u8>, k: int)
    requires
        s1.len() == s0.len(),
        forall|j: int| 0 <= j < s1.len() ==> #[trigger] s1[j] == s0[j] || s1[j] == zero_block(),
        first_named(s0, name, k),
        s1[k] == zero_block(),
    ensures
        !has_name(s1, name),
{
    lemma_live_len(s0);
    lemma_live_len(s1);
    assert(!slot_valid(zero_block()));
    if live_len(s1) > k {
        assert(slot_valid(s1[k]));
    }
    assert forall|j: int| 0 <= j < live_len(s1) implies #[trigger] slot_name(s1[j]) != name by {
        assert(slot_valid(s1[j]));
        assert(s1[j] == s0[j]);
    }
}

/// The clusters of `a` followed by those of `b`.
fn concat(a: &Vec<usize>, b: &Vec<usize>) -> (r: Vec<usize>)
    ensures
        r@ == a@ + b@,
{
    let mut r: Vec<usize> = Vec::new();
    let mut i: usize = 0;
    while i < a.len()
        invariant
            i <= a@.len(),
            r@ == a@.subrange(0, i as int),
        decreases a@.len() - i,
    {
        r.push(a[i]);
        i += 1;
        assert(r@ =~= a@.subrange(0, i as int));
    }
    let mut j: usize = 0;
    while j < b.len()
        invariant
            i == a@.len(),
            j <= b@.len(),
            r@ == a@ + b@.subrange(0, j as int),
        decreases b@.len() - j,
    {
        r.push(b[j]);
        j += 1;
        assert(r@ =~= a@ + b@.subrange(0, j as int));
    }
    assert(b@.subrange(0, b@.len() as int) =~= b@);
    assert(a@.subrange(0, a@.len() as int) =~= a@);
    r
}

/// Cluster `c` belongs to the chain of one of the first `k` entries the
/// directory in `chain` lists, or, for such an entry that is a directory and
/// while `depth` lasts, to a chain further down.
pub open spec fn reach_upto<D: BlockDevice>(
    cm: &BlockCacheManager<D>,
    sb: SuperBlock,
    chain: Seq<usize>,
    k: int,
    depth: nat,
    c: int,
) -> bool
    decreases depth, 0nat,
{
    exists|j: int, ch: Seq<usize>|
        0 <= j < k && j < live_len(dir_slots(cm, sb, chain)) && #[trigger] chain_ok(cm, sb, ch)
            && ch[0] == slot_cluster(#[trigger] dir_slots(cm, sb, chain)[j]) && (in_chain(ch, c) || (
        depth > 0 && slot_type(dir_slots(cm, sb, chain)[j]) == INodeType::DirEntry && reach(
            cm,
            sb,
            ch,
            (depth - 1) as nat,
            c,
        )))
}

/// Cluster `c` belongs to a chain at or below the directory in `chain`: of
/// an entry it lists, or (while `depth` lasts) of an entry listed in one of
/// its subdirectories, and so on down.
pub open spec fn reach<D: BlockDevice>(
    cm: &BlockCacheManager<D>,
    sb: SuperBlock,
    chain: Seq<usize>,
    depth: nat,
    c: int,
) -> bool
    decreases depth, 1nat,
{
    reach_upto(cm, sb, chain, live_len(dir_slots(cm, sb, chain)), depth, c)
}

/// What lies below a directory depends on the blocks alone.
pub proof fn lemma_reach_same<D: BlockDevice>(
    c1: &BlockCacheManager<D>,
    c2: &BlockCacheManager<D>,
    sb: SuperBlock,
    chain: Seq<usize>,
    depth: nat,
    c: int,
)
    requires
        same_blocks(c2, c1),
    ensures
        reach(c1, sb, chain, depth, c) == reach(c2, sb, chain, depth, c),
    decreases depth,
{
    assert(dir_slots(c1, sb, chain) =~= dir_slots(c2, sb, chain));
    let s = dir_slots(c1, sb, chain);
    let n = live_len(s);
    if reach(c1, sb, chain, depth, c) {
        let (j, ch) = choose|j: int, ch: Seq<usize>|
            0 <= j < n && j < live_len(dir_slots(c1, sb, chain)) && #[trigger] chain_ok(c1, sb, ch)
                && ch[0] == slot_cluster(#[trigger] dir_slots(c1, sb, chain)[j]) && (in_chain(ch, c) || (
            depth > 0 && slot_type(dir_slots(c1, sb, chain)[j]) == INodeType::DirEntry && reach(
                c1,
                sb,
                ch,
                (depth - 1) as nat,
                c,
            )));
        lemma_chain_ok_same(c1, c2, sb, ch);
        if depth > 0 {
            lemma_reach_same(c1, c2, sb, ch, (depth - 1) as nat, c);
        }
        assert(chain_ok(c2, sb, ch));
        assert(dir_slots(c2, sb, chain)[j] == s[j]);
    }
    if reach(c2, sb, chain, depth, c) {
        let (j, ch) = choose|j: int, ch: Seq<usize>|
            0 <= j < n && j < live_len(dir_slots(c2, sb, chain)) && #[trigger] chain_ok(c2, sb, ch)
                && ch[0] == slot_cluster(#[trigger] dir_slots(c2, sb, chain)[j]) && (in_chain(ch, c) || (
            depth > 0 && slot_type(dir_slots(c2, sb, chain)[j]) == INodeType::DirEntry && reach(
                c2,
                sb,
                ch,
                (depth - 1) as nat,
                c,
            )));
        lemma_chain_ok_same(c2, c1, sb, ch);
        if depth > 0 {
            lemma_reach_same(c1, c2, sb, ch, (depth - 1) as nat, c);
        }
        assert(chain_ok(c1, sb, ch));
        assert(dir_slots(c1, sb, chain)[j] == s[j]);
    }
}

/// `b` keeps `a` as its beginning.
pub open spec fn extends(a: Seq<usize>, b: Seq<usize>) -> bool {
    b.len() >= a.len() && b.subrange(0, a.len() as int) == a
}

proof fn lemma_extends_contains(a: Seq<usize>, b: Seq<usize>, x: usize)
    requires
        extends(a, b),
        a.contains(x),
    ensures
        b.contains(x),
{
    let i = choose|i: int| 0 <= i < a.len() && a[i] == x;
    assert(b.subrange(0, a.len() as int)[i] == b[i]);
}

proof fn lemma_extends_in(a: Seq<usize>, b: Seq<usize>, x: int)
    requires
        extends(a, b),
        in_chain(a, x),
    ensures
        in_chain(b, x),
{
    let i = choose|i: int| 0 <= i < a.len() && a[i] as int == x;
    assert(b.subrange(0, a.len() as int)[i] == b[i]);
}

/// Adds to `out` the clusters of every chain at or below the directory in
/// `chain` (subdirectories while `depth` lasts), reading only.
fn subtree_clusters<D: BlockDevice>(
    sb: &SuperBlock,
    cm: &mut BlockCacheManager<D>,
    chain: &Vec<usize>,
    depth: usize,
    out: &mut Vec<usize>,
)
    requires
        old(cm).wf(),
        sb.wf(),
        chain_ok(old(cm), *sb, chain@),
        forall|i: int| 0 <= i < old(out)@.len() ==> sb.valid_cluster(#[trigger] old(out)@[i] as int),
    ensures
        final(cm).wf(),
        same_blocks(final(cm), old(cm)),
        extends(old(out)@, final(out)@),
        forall|i: int| 0 <= i < final(out)@.len() ==> sb.valid_cluster(#[trigger] final(out)@[i] as int),
        forall|c: int| #[trigger] reach(old(cm), *sb, chain@, depth as nat, c) ==> in_chain(final(out)@, c),
    decreases depth,
{
    let ghost c0 = *cm;
    let ghost out0 = out@;
    let ghost s = dir_slots(&c0, *sb, chain@);
    let n = chain_sectors(sb, chain);
    assert(out0.subrange(0, out0.len() as int) =~= out0);
    let mut k: usize = 0;
    while k < n
        invariant
            c0 == *old(cm),
            out0 == old(out)@,
            cm.wf(),
            same_blocks(cm, &c0),
            sb.wf(),
            chain_ok(&c0, *sb, chain@),
            n == n_sectors(*sb, chain@),
            s == dir_slots(&c0, *sb, chain@),
            s.len() == n,
            k <= n,
            forall|j: int| 0 <= j < k ==> slot_valid(#[trigger] s[j]),
            extends(out0, out@),
            forall|i: int| 0 <= i < out@.len() ==> sb.valid_cluster(#[trigger] out@[i] as int),
            forall|c: int| #[trigger] reach_upto(&c0, *sb, chain@, k as int, depth as nat, c) ==> in_chain(out@, c),
        decreases n - k,
    {
        let addr = sector_of(sb, chain, k);
        let bytes = cm.read(addr, 0, INODE_BYTES);
        let inode = INode::decode(bytes.as_slice());
        let ghost sk = s[k as int];
        assert(sk == c0.block(addr as int));
        assert(decodes(inode, sk)) by {
            assert(bytes@ == sk.subrange(0, 64));
            assert(sk.subrange(0, 64).subrange(1, 17) =~= sk.subrange(1, 17));
            assert(bytes@[0] == sk[0]);
            assert(bytes@[17] == sk[17]);
            assert forall|o: int, w: int| 0 <= o && o + w <= 64 && 0 <= w implies #[trigger] bytes@.subrange(o, o + w) == sk.subrange(o, o + w) by {
                assert(bytes@.subrange(o, o + w) =~= sk.subrange(o, o + w));
            }
        }
        if !inode.is_valid() {
            proof {
                lemma_live_is(s, k as int);
                assert forall|c: int| #[trigger] reach(&c0, *sb, chain@, depth as nat, c) implies in_chain(out@, c) by {
                    assert(reach_upto(&c0, *sb, chain@, k as int, depth as nat, c));
                }
            }
            return;
        }
        let ghost out1 = out@;
        let ghost c1 = *cm;
        let walked = read_clusters(sb, cm, inode.cluster());
        match walked {
            Some(ch) => {
                assert(out1.subrange(0, out1.len() as int) =~= out1);
                let mut i: usize = 0;
                while i < ch.len()
                    invariant
                        i <= ch@.len(),
                        extends(out1, out@),
                        forall|x: int| 0 <= x < i ==> out@.contains(#[trigger] ch@[x]),
                        chain_ok(&c1, *sb, ch@),
                        forall|q: int| 0 <= q < out@.len() ==> sb.valid_cluster(#[trigger] out@[q] as int),
                    decreases ch@.len() - i,
                {
                    let ghost before = out@;
                    out.push(ch[i]);
                    proof {
                        assert(out@[before.len() as int] == ch@[i as int]);
                        assert(out@.subrange(0, out1.len() as int) =~= before.subrange(0, out1.len() as int));
                        assert forall|x: int| 0 <= x < i + 1 implies out@.contains(#[trigger] ch@[x]) by {
                            if x < i {
                                assert(extends(before, out@)) by {
                                    assert(out@.subrange(0, before.len() as int) =~= before);
                                }
                                lemma_extends_contains(before, out@, ch@[x]);
                            }
                        }
                    }
                    i += 1;
                }
                let ghost out2 = out@;
                let ghost c2 = *cm;
                proof {
                    lemma_chain_ok_same(&c1, &c2, *sb, ch@);
                }
                if inode.is_dir() && depth > 0 {
                    subtree_clusters(sb, cm, &ch, depth - 1, out);
                }
                proof {
                    assert(extends(out0, out@)) by {
                        assert(out@.subrange(0, out0.len() as int) =~= out0);
                    }
                    assert forall|c: int| #[trigger] reach_upto(&c0, *sb, chain@, k + 1, depth as nat, c) implies in_chain(out@, c) by {
                        let (j, cj) = choose|j: int, cj: Seq<usize>|
                            0 <= j < k + 1 && j < live_len(dir_slots(&c0, *sb, chain@)) && #[trigger] chain_ok(&c0, *sb, cj)
                                && cj[0] == slot_cluster(#[trigger] dir_slots(&c0, *sb, chain@)[j]) && (in_chain(cj, c) || (
                            depth > 0 && slot_type(dir_slots(&c0, *sb, chain@)[j]) == INodeType::DirEntry && reach(
                                &c0,
                                *sb,
                                cj,
                                (depth - 1) as nat,
                                c,
                            )));
                        if j < k {
                            assert(reach_upto(&c0, *sb, chain@, k as int, depth as nat, c));
                            assert(extends(out1, out@)) by {
                                assert(out@.subrange(0, out1.len() as int) =~= out1);
                            }
                            lemma_extends_in(out1, out@, c);
                        } else {
                            lemma_chain_ok_same(&c0, &c1, *sb, cj);
                            assert(cj == ch@);
                            if in_chain(cj, c) {
                                let x = choose|x: int| 0 <= x < cj.len() && cj[x] as int == c;
                                assert(out2.contains(ch@[x]));
                                assert(extends(out2, out@)) by {
                                    assert(out@.subrange(0, out2.len() as int) =~= out2);
                                }
                                lemma_extends_contains(out2, out@, ch@[x]);
                                let y = choose|y: int| 0 <= y < out@.len() && out@[y] == ch@[x];
                                assert(out@[y] as int == c);
                            } else {
                                lemma_reach_same(&c0, &c2, *sb, ch@, (depth - 1) as nat, c);
                            }
                        }
                    }
                }
            },
            None => {
                proof {
                    assert forall|c: int| #[trigger] reach_upto(&c0, *sb, chain@, k + 1, depth as nat, c) implies in_chain(out@, c) by {
                        let (j, cj) = choose|j: int, cj: Seq<usize>|
                            0 <= j < k + 1 && j < live_len(dir_slots(&c0, *sb, chain@)) && #[trigger] chain_ok(&c0, *sb, cj)
                                && cj[0] == slot_cluster(#[trigger] dir_slots(&c0, *sb, chain@)[j]) && (in_chain(cj, c) || (
                            depth > 0 && slot_type(dir_slots(&c0, *sb, chain@)[j]) == INodeType::DirEntry && reach(
                                &c0,
                                *sb,
                                cj,
                                (depth - 1) as nat,
                                c,
                            )));
                        if j < k {
                            assert(reach_upto(&c0, *sb, chain@, k as int, depth as nat, c));
                        } else {
                            lemma_chain_ok_same(&c0, &c1, *sb, cj);
                        }
                    }
                }
            },
        }
        k += 1;
    }
    proof {
        lemma_live_is(s, n as int);
        assert forall|c: int| #[trigger] reach(&c0, *sb, chain@, depth as nat, c) implies in_chain(out@, c) by {
            assert(reach_upto(&c0, *sb, chain@, n as int, depth as nat, c));
        }
    }
}

/// Cluster `c` belongs to an entry's data: to its chain `ch`, or, for a
/// directory, to a chain anywhere below it (no deeper than the FAT has
/// entries, which no chain of distinct clusters can exceed).
pub open spec fn below_entry<D: BlockDevice>(
    cm: &BlockCacheManager<D>,
    sb: SuperBlock,
    ch: Seq<usize>,
    t: INodeType,
    c: int,
) -> bool {
    in_chain(ch, c) || (t == INodeType::DirEntry && reach(cm, sb, ch, sb.end() as nat, c))
}

/// Cluster `c` is free in the FAT and every sector of it reads as zeros, so
/// every slot it held is free.
pub open spec fn gone<D: BlockDevice>(cm: &BlockCacheManager<D>, sb: SuperBlock, c: int) -> bool {
    &&& fat_entry(cm, c) == FAT_FREE
    &&& forall|a: int| cluster_of(sb, a) == c && a % 512 == 0 ==> #[trigger] cm.block(a) == zero_block()
}

/// Zeroes and frees every cluster of `doomed` that is not one of `keep`'s,
/// handing them to the allocator for reuse. Only zeros are written outside
/// the FAT, and no FAT entry or block of `keep`'s clusters changes.
fn wipe_clusters<D: BlockDevice>(fs: &mut FileSystem<D>, doomed: &Vec<usize>, keep: &Vec<usize>)
    requires
        old(fs).wf(),
        forall|i: int| 0 <= i < doomed@.len() ==> old(fs).sb().valid_cluster(#[trigger] doomed@[i] as int),
        forall|i: int| 0 <= i < keep@.len() ==> old(fs).sb().valid_cluster(#[trigger] keep@[i] as int),
    ensures
        final(fs).wf(),
        final(fs).sb() == old(fs).sb(),
        only_zeroed(&old(fs).cm(), &final(fs).cm(), old(fs).sb()),
        extends(old(fs).recycled(), final(fs).recycled()),
        forall|x: int|
            0 <= x < old(fs).sb().end() && in_chain(keep@, x) ==> #[trigger] fat_entry(&final(fs).cm(), x)
                == fat_entry(&old(fs).cm(), x),
        forall|a: int|
            in_chain(keep@, cluster_of(old(fs).sb(), a)) ==> #[trigger] final(fs).cm().block(a) == old(fs).cm().block(a),
        forall|c: int|
            #[trigger] in_chain(doomed@, c) && !in_chain(keep@, c) ==> gone(&final(fs).cm(), old(fs).sb(), c)
                && in_chain(final(fs).recycled(), c),
{
    let sb = fs.sblock;
    let ghost c0 = fs.cache;
    let mut kept: Vec<usize> = Vec::new();
    let mut i: usize = 0;
    while i < doomed.len()
        invariant
            fs.wf(),
            fs.sblock == sb,
            sb == old(fs).sb(),
            c0 == old(fs).cm(),
            fs.fat == old(fs).fat,
            i <= doomed@.len(),
            forall|q: int| 0 <= q < doomed@.len() ==> sb.valid_cluster(#[trigger] doomed@[q] as int),
            forall|q: int| 0 <= q < kept@.len() ==> sb.valid_cluster(#[trigger] kept@[q] as int) && !in_chain(keep@, kept@[q] as int),
            forall|q: int| 0 <= q < i && !in_chain(keep@, doomed@[q] as int) ==> in_chain(kept@, #[trigger] doomed@[q] as int),
            forall|a: int|
                in_chain(kept@, cluster_of(sb, a)) && a % 512 == 0 ==> #[trigger] fs.cache.block(a) == zero_block(),
            forall|a: int|
                #[trigger] fs.cache.block(a) == c0.block(a) || (a >= sb.data_start() && a % 512 == 0
                    && fs.cache.block(a) == zero_block() && !in_chain(keep@, cluster_of(sb, a))),
        decreases doomed@.len() - i,
    {
        let c = doomed[i];
        if !crate::file::chain_has(keep, c) {
            let ghost cz = fs.cache;
            zero_cluster(&sb, &mut fs.cache, c);
            let ghost prev = kept@;
            kept.push(c);
            proof {
                assert(kept@[prev.len() as int] == c);
                assert forall|x: int| in_chain(prev, x) implies in_chain(kept@, x) by {
                    let q = choose|q: int| 0 <= q < prev.len() && prev[q] as int == x;
                    assert(kept@[q] == prev[q]);
                }
                assert forall|x: int| in_chain(kept@, x) implies in_chain(prev, x) || x == c by {
                    let q = choose|q: int| 0 <= q < kept@.len() && kept@[q] as int == x;
                    if q < prev.len() {
                        assert(kept@[q] == prev[q]);
                    }
                }
                assert forall|a: int|
                    in_chain(kept@, cluster_of(sb, a)) && a % 512 == 0 implies #[trigger] fs.cache.block(a) == zero_block() by {
                    if cluster_of(sb, a) != c {
                        assert(in_chain(prev, cluster_of(sb, a)));
                        assert(cz.block(a) == zero_block());
                    }
                }
                assert forall|q: int| 0 <= q < i + 1 && !in_chain(keep@, doomed@[q] as int) implies in_chain(kept@, #[trigger] doomed@[q] as int) by {
                    if q < i {
                        assert(in_chain(prev, doomed@[q] as int));
                    }
                }
                assert forall|q: int| 0 <= q < kept@.len() implies sb.valid_cluster(#[trigger] kept@[q] as int) && !in_chain(keep@, kept@[q] as int) by {
                    if q < prev.len() {
                        assert(kept@[q] == prev[q]);
                    }
                }
                assert forall|a: int|
                    #[trigger] fs.cache.block(a) == c0.block(a) || (a >= sb.data_start() && a % 512 == 0
                        && fs.cache.block(a) == zero_block() && !in_chain(keep@, cluster_of(sb, a))) by {
                    if cluster_of(sb, a) == c && a % 512 == 0 {
                        lemma_below_data_cluster(sb, a, c as int);
                    } else {
                        assert(fs.cache.block(a) == cz.block(a));
                    }
                }
            }
        }
        i += 1;
    }
    let ghost c1 = fs.cache;
    let ghost rec1 = fs.recycled();
    proof {
        assert forall|x: int| x < sb.data_start() implies #[trigger] c1.block(x) == c0.block(x) by {
            assert(c1.block(x) == c0.block(x) || x >= sb.data_start());
        }
        assert(same_below_data(&c1, &c0, sb));
        lemma_fat_same_below(&c0, &c1, sb);
    }
    crate::fat::free_chain(&mut fs.fat, &mut fs.cache, &kept);
    proof {
        let c2 = fs.cache;
        assert(fs.recycled() == rec1 + kept@);
        assert(extends(old(fs).recycled(), fs.recycled())) by {
            assert(fs.recycled().subrange(0, rec1.len() as int) =~= rec1);
        }
        assert forall|c: int| #[trigger] in_chain(doomed@, c) && !in_chain(keep@, c) implies gone(&c2, sb, c)
            && in_chain(fs.recycled(), c) by {
            let q = choose|q: int| 0 <= q < doomed@.len() && doomed@[q] as int == c;
            assert(in_chain(kept@, doomed@[q] as int));
            let x = choose|x: int| 0 <= x < kept@.len() && kept@[x] as int == c;
            assert(fat_entry(&c2, kept@[x] as int) == FAT_FREE);
            assert(fs.recycled()[rec1.len() + x] == kept@[x]);
            assert forall|a: int| cluster_of(sb, a) == c && a % 512 == 0 implies #[trigger] c2.block(a) == zero_block() by {
                lemma_below_data_cluster(sb, a, c);
                assert(c2.block(a) == c1.block(a));
            }
        }
        assert forall|x: int| 0 <= x < sb.end() && in_chain(keep@, x) implies #[trigger] fat_entry(&c2, x) == fat_entry(&c0, x) by {
            assert(!kept@.contains(x as usize)) by {
                if kept@.contains(x as usize) {
                    let q = choose|q: int| 0 <= q < kept@.len() && kept@[q] == x as usize;
                    assert(!in_chain(keep@, kept@[q] as int));
                }
            }
            lemma_fat_layout(sb, x, 0);
        }
        assert forall|a: int| in_chain(keep@, cluster_of(sb, a)) implies #[trigger] c2.block(a) == c0.block(a) by {
            let q = choose|q: int| 0 <= q < keep@.len() && keep@[q] as int == cluster_of(sb, a);
            assert(sb.valid_cluster(keep@[q] as int));
            if a < sb.data_start() {
                lemma_below_data(sb, a);
            }
            assert(c1.block(a) == c0.block(a) || !in_chain(keep@, cluster_of(sb, a)));
        }
        assert forall|a: int| !(512 <= a < sb.data_start()) implies #[trigger] c2.block(a) == c0.block(a) || (a >= sb.data_start()
            && c2.block(a) == zero_block()) by {
            assert(c2.block(a) == c1.block(a));
        }
    }
}

/// A sector of a valid cluster lies in the data region.
proof fn lemma_below_data_cluster(sb: SuperBlock, a: int, c: int)
    requires
        sb.wf(),
        sb.valid_cluster(c),
        cluster_of(sb, a) == c,
    ensures
        a >= sb.data_start(),
{
    if a < sb.data_start() {
        lemma_below_data(sb, a);
    }
}

/// A directory: the cluster chain its entry slots are stored in.
pub struct DirEntry {
    pub(crate) clusters: Vec<usize>,
}

impl DirEntry {
    /// The clusters the directory is stored in, in chain order.
    pub open(crate) spec fn chain(&self) -> Seq<usize> {
        self.clusters@
    }

    /// The directory's chain is a chain of the volume `fs`.
    pub open(crate) spec fn wf_in<D: BlockDevice>(&self, fs: &FileSystem<D>) -> bool {
        fs.wf() && chain_ok(&fs.cm(), fs.sb(), self.chain())
    }

    /// The directory's slots as `fs` stores them.
    pub open(crate) spec fn slots<D: BlockDevice>(&self, fs: &FileSystem<D>) -> Seq<Seq<u8>> {
        dir_slots(&fs.cm(), fs.sb(), self.chain())
    }

    /// Walks the slots up to the first free one, looking for an entry named
    /// `name`: its index if there is one, else the index of the first free
    /// slot (the number of slots when there is none).
    fn scan<D: BlockDevice>(
        &self,
        sb: &SuperBlock,
        cm: &mut BlockCacheManager<D>,
        name: &[u8],
    ) -> (r: (Option<INode>, usize))
        requires
            old(cm).wf(),
            sb.wf(),
            chain_ok(old(cm), *sb, self.clusters@),
        ensures
            final(cm).wf(),
            same_blocks(final(cm), old(cm)),
            r.1 <= n_sectors(*sb, self.clusters@),
            ({
                let s = dir_slots(old(cm), *sb, self.clusters@);
                match r.0 {
                    Some(i) => {
                        &&& r.1 < live_len(s)
                        &&& slot_name(s[r.1 as int]) == name@
                        &&& forall|j: int| 0 <= j < r.1 ==> slot_name(#[trigger] s[j]) != name@
                        &&& decodes(i, s[r.1 as int])
                    },
                    None => r.1 == live_len(s) && !has_name(s, name@),
                }
            }),
    {
        let ghost s = dir_slots(old(cm), *sb, self.clusters@);
        let n = chain_sectors(sb, &self.clusters);
        let mut k: usize = 0;
        while k < n
            invariant
                cm.wf(),
                same_blocks(cm, old(cm)),
                sb.wf(),
                chain_ok(old(cm), *sb, self.clusters@),
                n == n_sectors(*sb, self.clusters@),
                s == dir_slots(old(cm), *sb, self.clusters@),
                s.len() == n,
                k <= n,
                forall|j: int| 0 <= j < k ==> slot_valid(#[trigger] s[j]),
                forall|j: int| 0 <= j < k ==> slot_name(#[trigger] s[j]) != name@,
            decreases n - k,
        {
            let addr = sector_of(sb, &self.clusters, k);
            let bytes = cm.read(addr, 0, INODE_BYTES);
            let inode = INode::decode(bytes.as_slice());
            let ghost sk = s[k as int];
            assert(sk == old(cm).block(addr as int));
            assert(decodes(inode, sk)) by {
                assert(bytes@ == sk.subrange(0, 64));
                assert(sk.subrange(0, 64).subrange(1, 17) =~= sk.subrange(1, 17));
                assert(bytes@[0] == sk[0]);
                assert(bytes@[17] == sk[17]);
                assert forall|o: int, w: int| 0 <= o && o + w <= 64 && 0 <= w implies #[trigger] bytes@.subrange(o, o + w) == sk.subrange(o, o + w) by {
                    assert(bytes@.subrange(o, o + w) =~= sk.subrange(o, o + w));
                }
            }
            if !inode.is_valid() {
                proof {
                    lemma_live_is(s, k as int);
                    lemma_live_len(s);
                    assert(!has_name(s, name@));
                }
                return (None, k);
            }
            let nm = inode.name_bytes();
            assert(nm@ == slot_name(sk)) by {
                assert(nm@ =~= slot_name(sk));
            }
            if bytes_eq(nm.as_slice(), name) {
                proof {
                    lemma_live_len(s);
                    if live_len(s) <= k {
                        lemma_live_is(s, live_len(s));
                    }
                }
                return (Some(inode), k);
            }
            k += 1;
        }
        proof {
            lemma_live_is(s, n as int);
        }
        (None, n)
    }

    /// The entries of this directory in storage order: every slot before the
    /// first free one.
    pub fn ls<D: BlockDevice>(&self, fs: &mut FileSystem<D>) -> (r: Vec<INode>)
        requires
            self.wf_in(old(fs)),
        ensures
            final(fs).wf(),
            final(fs).sb() == old(fs).sb(),
            same_blocks(&final(fs).cm(), &old(fs).cm()),
            r@.len() == live_len(self.slots(old(fs))),
            forall|j: int| 0 <= j < r@.len() ==> decodes(#[trigger] r@[j], self.slots(old(fs))[j]),
    {
        let ghost s = self.slots(fs);
        let sb = fs.sblock;
        let n = chain_sectors(&sb, &self.clusters);
        let mut inodes: Vec<INode> = Vec::new();
        let mut k: usize = 0;
        while k < n
            invariant
                fs.wf(),
                fs.sblock == sb,
                sb == old(fs).sb(),
                same_blocks(&fs.cm(), &old(fs).cm()),
                chain_ok(&old(fs).cm(), sb, self.clusters@),
                n == n_sectors(sb, self.clusters@),
                s == dir_slots(&old(fs).cm(), sb, self.clusters@),
                s.len() == n,
                k <= n,
                inodes@.len() == k,
                forall|j: int| 0 <= j < k ==> slot_valid(#[trigger] s[j]),
                forall|j: int| 0 <= j < k ==> decodes(#[trigger] inodes@[j], s[j]),
            decreases n - k,
        {
            let addr = sector_of(&sb, &self.clusters, k);
            let bytes = fs.cache.read(addr, 0, INODE_BYTES);
            let inode = INode::decode(bytes.as_slice());
            let ghost sk = s[k as int];
            assert(sk == old(fs).cm().block(addr as int));
            assert(decodes(inode, sk)) by {
                assert(bytes@ == sk.subrange(0, 64));
                assert(sk.subrange(0, 64).subrange(1, 17) =~= sk.subrange(1, 17));
                assert(bytes@[0] == sk[0]);
                assert(bytes@[17] == sk[17]);
                assert forall|o: int, w: int| 0 <= o && o + w <= 64 && 0 <= w implies #[trigger] bytes@.subrange(o, o + w) == sk.subrange(o, o + w) by {
                    assert(bytes@.subrange(o, o + w) =~= sk.subrange(o, o + w));
                }
            }
            if !inode.is_valid() {
                proof {
                    lemma_live_is(s, k as int);
                }
                return inodes;
            }
            inodes.push(inode);
            k += 1;
        }
        proof {
            lemma_live_is(s, n as int);
        }
        inodes
    }

    /// The directory named `dir` among this directory's entries.
    pub fn cd<D: BlockDevice>(&self, fs: &mut FileSystem<D>, dir: &str) -> (r: Result<
        DirEntry,
        DirError,
    >)
        requires
            self.wf_in(old(fs)),
        ensures
            final(fs).wf(),
            final(fs).sb() == old(fs).sb(),
            same_blocks(&final(fs).cm(), &old(fs).cm()),
            r matches Err(e) ==> e == DirError::NotFoundDir,
            r matches Ok(d) ==> d.wf_in(final(fs)) && exists|k: int|
                first_named(self.slots(old(fs)), dir.spec_bytes(), k) && slot_type(
                    #[trigger] self.slots(old(fs))[k],
                ) == INodeType::DirEntry && d.chain()[0] == slot_cluster(self.slots(old(fs))[k]),
            forall|k: int, ch: Seq<usize>|
                first_named(self.slots(old(fs)), dir.spec_bytes(), k) && slot_type(
                    #[trigger] self.slots(old(fs))[k],
                ) == INodeType::DirEntry && #[trigger] chain_ok(&old(fs).cm(), old(fs).sb(), ch)
                    && ch[0] == slot_cluster(self.slots(old(fs))[k]) ==> r is Ok && r.unwrap().chain()
                    == ch,
    {
        let ghost s = self.slots(fs);
        let ghost c0 = fs.cache;
        let ghost sb0 = fs.sblock;
        assert(s == self.slots(old(fs)) && c0 == old(fs).cm() && sb0 == old(fs).sb());
        let (found, k) = self.scan(&fs.sblock, &mut fs.cache, dir.as_bytes());
        proof {
            assert forall|k2: int| first_named(s, dir.spec_bytes(), k2) implies k2 == k && found is Some by {
                if found is None {
                    assert(slot_name(s[k2]) == dir.spec_bytes());
                } else if k2 < k {
                } else if k < k2 {
                }
            }
        }
        match found {
            Some(inode) => {
                if !inode.is_dir() {
                    proof {
                        assert forall|k2: int, ch: Seq<usize>|
                            first_named(s, dir.spec_bytes(), k2) && slot_type(#[trigger] s[k2])
                                == INodeType::DirEntry && #[trigger] chain_ok(&c0, fs.sblock, ch) implies false by {
                            assert(k2 == k);
                        }
                    }
                    return Err(DirError::NotFoundDir);
                }
                let ghost c1 = fs.cache;
                match read_clusters(&fs.sblock, &mut fs.cache, inode.cluster()) {
                    Some(clusters) => {
                        proof {
                            lemma_chain_ok_same(&c1, &fs.cache, fs.sblock, clusters@);
                            lemma_chain_ok_same(&c0, &fs.cache, fs.sblock, self.clusters@);
                            assert(first_named(s, dir.spec_bytes(), k as int));
                            assert forall|k2: int, ch: Seq<usize>|
                                first_named(s, dir.spec_bytes(), k2) && slot_type(#[trigger] s[k2])
                                    == INodeType::DirEntry && #[trigger] chain_ok(&c0, fs.sblock, ch)
                                    && ch[0] == slot_cluster(s[k2]) implies clusters@ == ch by {
                                assert(k2 == k);
                                lemma_chain_ok_same(&c0, &c1, fs.sblock, ch);
                            }
                            assert(forall|k2: int, ch: Seq<usize>|
                                first_named(self.slots(old(fs)), dir.spec_bytes(), k2) && slot_type(
                                    #[trigger] self.slots(old(fs))[k2],
                                ) == INodeType::DirEntry && #[trigger] chain_ok(&old(fs).cm(), old(fs).sb(), ch)
                                    && ch[0] == slot_cluster(self.slots(old(fs))[k2]) ==> clusters@ == ch);
                        }
                        Ok(DirEntry { clusters })
                    },
                    None => {
                        proof {
                            assert forall|k2: int, ch: Seq<usize>|
                                first_named(s, dir.spec_bytes(), k2) && slot_type(#[trigger] s[k2])
                                    == INodeType::DirEntry && #[trigger] chain_ok(&c0, fs.sblock, ch)
                                    && ch[0] == slot_cluster(s[k2]) implies false by {
                                assert(k2 == k);
                                lemma_chain_ok_same(&c0, &c1, fs.sblock, ch);
                            }
                            assert forall|k2: int, ch: Seq<usize>|
                                first_named(self.slots(old(fs)), dir.spec_bytes(), k2) && slot_type(
                                    #[trigger] self.slots(old(fs))[k2],
                                ) == INodeType::DirEntry && #[trigger] chain_ok(&old(fs).cm(), old(fs).sb(), ch)
                                    && ch[0] == slot_cluster(self.slots(old(fs))[k2]) implies false by {
                                assert(k2 == k);
                                assert(chain_ok(&c0, sb0, ch));
                                lemma_chain_ok_same(&c0, &c1, sb0, ch);
                                assert(ch[0] == inode.i_cluster);
                            }
                        }
                        Err(DirError::NotFoundDir)
                    },
                }
            },
            None => {
                proof {
                    assert forall|k2: int, ch: Seq<usize>|
                        first_named(s, dir.spec_bytes(), k2) && slot_type(#[trigger] s[k2])
                            == INodeType::DirEntry && #[trigger] chain_ok(&c0, fs.sblock, ch) implies false by {
                        assert(k2 == k && found is Some);
                    }
                    assert(forall|k2: int, ch: Seq<usize>|
                                first_named(self.slots(old(fs)), dir.spec_bytes(), k2) && slot_type(
                                    #[trigger] self.slots(old(fs))[k2],
                                ) == INodeType::DirEntry && #[trigger] chain_ok(&old(fs).cm(), old(fs).sb(), ch)
                                    && ch[0] == slot_cluster(self.slots(old(fs))[k2]) ==> false);
                }
                Err(DirError::NotFoundDir)
            },
        }
    }

    /// Stores a new entry of type `t` named `name` in the first free slot,
    /// extending the chain by a cluster when there is none, with its data in
    /// a fresh zeroed cluster; returns that cluster's chain.
    fn create_inner<D: BlockDevice>(
        &mut self,
        fs: &mut FileSystem<D>,
        name: &str,
        t: INodeType,
        exist: DirError,
    ) -> (r: Result<(Vec<usize>, usize), DirError>)
        requires
            old(self).wf_in(old(fs)),
            name.spec_bytes().len() <= NAME_CAP,
            t != INodeType::NoneEntry,
            exist != DirError::IllegalChar && exist != DirError::NoSpace,
        ensures
            final(self).wf_in(final(fs)),
            final(fs).sb() == old(fs).sb(),
            has_name(old(self).slots(old(fs)), name.spec_bytes()) <==> r == Err::<
                (Vec<usize>, usize),
                DirError,
            >(exist),
            !has_name(old(self).slots(old(fs)), name.spec_bytes()) && illegal_name(name.spec_bytes())
                <==> r == Err::<(Vec<usize>, usize), DirError>(DirError::IllegalChar),
            r is Err ==> r == Err::<(Vec<usize>, usize), DirError>(exist) || r == Err::<(Vec<usize>, usize), DirError>(
                DirError::IllegalChar,
            ) || r == Err::<(Vec<usize>, usize), DirError>(DirError::NoSpace),
            r == Err::<(Vec<usize>, usize), DirError>(DirError::NoSpace) ==> no_room(
                &old(fs).cm(),
                &final(fs).cm(),
                old(fs).sb(),
                old(self).slots(old(fs)),
            ) && final(self).chain() == old(self).chain(),
            r is Err && r != Err::<(Vec<usize>, usize), DirError>(DirError::NoSpace) ==> same_blocks(
                &final(fs).cm(),
                &old(fs).cm(),
            ) && final(self).chain() == old(self).chain(),
            r matches Ok((child, addr)) ==> child@.len() == 1 && created(
                &old(fs).cm(),
                &final(fs).cm(),
                old(fs).sb(),
                old(self).chain(),
                final(self).chain(),
                t,
                name.spec_bytes(),
                child@[0],
            ) && addr == sector_addr(
                old(fs).sb(),
                final(self).chain(),
                live_len(old(self).slots(old(fs))),
            ),
    {
        let ghost c0 = fs.cache;
        let ghost s0 = self.slots(fs);
        let ghost chain0 = self.clusters@;
        let sb = fs.sblock;
        let nb = name.as_bytes();
        let (found, k) = self.scan(&sb, &mut fs.cache, nb);
        proof {
            lemma_chain_ok_same(&c0, &fs.cache, sb, chain0);
        }
        if found.is_some() {
            return Err(exist);
        }
        if is_illegal(name) {
            return Err(DirError::IllegalChar);
        }
        let ghost ca = fs.cache;
        let n = chain_sectors(&sb, &self.clusters);
        proof {
            lemma_one_cluster(sb);
            lemma_live_len(s0);
        }
        let ghost mut c1 = fs.cache;
        if k == n {
            let tail = self.clusters[self.clusters.len() - 1];
            match increase_cluster(&mut fs.fat, &mut fs.cache, tail, BLOCK_SIZE) {
                None => {
                    proof {
                        lemma_chain_ok_frame(&ca, &fs.cache, sb, chain0);
                        assert forall|x: int| #[trigger] free_set(&c0, sb).contains(x) implies false by {
                            assert(ca.block(fat_blk(x)) == c0.block(fat_blk(x)));
                            assert(free_set(&ca, sb).contains(x));
                            crate::fat::lemma_free_nonempty(&ca, sb, x);
                        }
                        assert(free_set(&c0, sb) =~= Set::<int>::empty());
                    }
                    return Err(DirError::NoSpace);
                },
                Some(more) => {
                    proof {
                        c1 = fs.cache;
                    }
                    let nc = more[0];
                    proof {
                        lemma_fat_layout(sb, nc as int, 0);
                        assert(!chain0.contains(nc)) by {
                            if chain0.contains(nc) {
                                let i = choose|i: int| 0 <= i < chain0.len() && chain0[i] == nc;
                                lemma_chain_in_use(&ca, sb, chain0, i);
                            }
                        }
                    }
                    zero_cluster(&sb, &mut fs.cache, nc);
                    let ghost c2 = fs.cache;
                    self.clusters.push(nc);
                    proof {
                        assert(same_below_data(&c2, &c1, sb)) by {
                            assert forall|x: int| x < sb.data_start() implies #[trigger] c2.block(x) == c1.block(x) by {
                                lemma_below_data(sb, x);
                            }
                        }
                        lemma_fat_same_below(&c1, &c2, sb);
                        let chain1 = self.clusters@;
                        assert(chain1.subrange(0, chain0.len() as int) =~= chain0);
                        assert forall|i: int| 0 <= i < chain1.len() - 1 implies #[trigger] fat_entry(&c2, chain1[i] as int) == chain1[i + 1] by {
                            if i < chain0.len() - 1 {
                                lemma_chain_in_use(&ca, sb, chain0, i);
                                assert(chain0[i] != tail);
                                assert(chain0[i] != nc);
                                assert(fat_entry(&ca, chain0[i] as int) == chain0[i + 1]);
                            } else {
                                assert(chain1[i] == tail);
                            }
                        }
                        assert forall|i: int| 0 <= i < chain1.len() implies sb.valid_cluster(#[trigger] chain1[i] as int) by {
                            if i < chain0.len() {
                                assert(chain1[i] == chain0[i]);
                            }
                        }
                        assert(chain1.no_duplicates()) by {
                            assert forall|i: int, j: int| 0 <= i < chain1.len() && 0 <= j < chain1.len() && i != j implies chain1[i] != chain1[j] by {
                                if i < chain0.len() && j < chain0.len() {
                                    assert(chain0[i] != chain0[j]);
                                } else if i < chain0.len() {
                                    assert(chain0[i] != nc);
                                } else if j < chain0.len() {
                                    assert(chain0[j] != nc);
                                }
                            }
                        }
                        assert(chain_ok(&c2, sb, chain1));
                        assert(fat_entry(&ca, nc as int) == FAT_FREE);
                        assert(chain1.last() == nc);
                        assert(forall|a: int| cluster_of(sb, a) != nc ==> #[trigger] c2.block(a) == c1.block(a));
                        assert(same_outside_fat(&c1, &ca, sb));
                    }
                },
            }
        } else {
            proof {
                lemma_chain_ok_frame(&ca, &fs.cache, sb, chain0);
            }
        }
        let ghost c2 = fs.cache;
        let ghost chain1 = self.clusters@;
        assert(chain_ok(&c2, sb, chain1));
        match alloc_clusters(&mut fs.fat, &mut fs.cache, BLOCK_SIZE) {
            None => {
                let ghost cz = fs.cache;
                proof {
                    assert forall|x: int| 0 <= x < sb.end() implies #[trigger] fat_entry(&cz, x) == fat_entry(&c2, x) by {
                        lemma_fat_layout(sb, x, 0);
                    }
                    assert forall|x: int| 0 <= x < sb.end() && !(k == n && (x == chain1.last() || x == chain0.last()))
                        implies #[trigger] fat_entry(&c2, x) == fat_entry(&c0, x) by {
                        lemma_fat_layout(sb, x, 0);
                        assert(ca.block(fat_blk(x)) == c0.block(fat_blk(x)));
                        if k == n {
                            assert(fat_entry(&c2, x) == fat_entry(&c1, x));
                        }
                    }
                }
                if k == n {
                    let nc = self.clusters.pop().unwrap();
                    let tail = self.clusters[self.clusters.len() - 1];
                    proof {
                        assert(self.clusters@ =~= chain0);
                        lemma_fat_layout(sb, tail as int, 0);
                        lemma_fat_layout(sb, nc as int, 0);
                    }
                    crate::fat::write_fat(&mut fs.cache, tail, crate::fat::FAT_EOC);
                    let undo: Vec<usize> = vec![nc];
                    proof {
                        assert(undo@ =~= seq![nc]);
                    }
                    crate::fat::free_chain(&mut fs.fat, &mut fs.cache, &undo);
                }
                proof {
                    let cf = fs.cache;
                    lemma_live_len(s0);
                    // the FAT reads as before
                    assert forall|x: int| 0 <= x < sb.end() implies #[trigger] fat_entry(&cf, x) == fat_entry(&c0, x) by {
                        lemma_fat_layout(sb, x, 0);
                        if k == n {
                            lemma_chain_in_use(&c0, sb, chain0, chain0.len() - 1);
                            assert(chain0[chain0.len() - 1] == chain0.last());
                            assert(fat_entry(&c0, chain0.last() as int) == crate::fat::FAT_EOC);
                            assert(fat_entry(&ca, chain1.last() as int) == FAT_FREE);
                            assert(ca.block(fat_blk(chain1.last() as int)) == c0.block(fat_blk(chain1.last() as int)));
                            if x != chain1.last() && x != chain0.last() {
                            }
                        }
                    }
                    assert(self.clusters@ == chain0);
                    lemma_chain_ok_frame(&c0, &cf, sb, chain0);
                    // too few free clusters
                    assert(free_set(&c2, sb).len() < 1);
                    if k == n {
                        assert forall|x: int| #[trigger] free_set(&c0, sb).contains(x) implies seq![chain1.last()].contains(x as usize) by {
                            if x != chain1.last() {
                                lemma_chain_in_use(&c0, sb, chain0, chain0.len() - 1);
                                assert(chain0[chain0.len() - 1] == chain0.last());
                                assert(x != chain0.last());
                                assert(free_set(&c2, sb).contains(x));
                                crate::fat::lemma_free_nonempty(&c2, sb, x);
                            } else {
                                assert(seq![chain1.last()][0] == chain1.last());
                            }
                        }
                        crate::fat::lemma_free_within(&c0, sb, seq![chain1.last()]);
                    } else {
                        assert forall|x: int| #[trigger] free_set(&c0, sb).contains(x) implies false by {
                            assert(free_set(&c2, sb).contains(x));
                            crate::fat::lemma_free_nonempty(&c2, sb, x);
                        }
                        assert(free_set(&c0, sb) =~= Set::<int>::empty());
                    }
                }
                return Err(DirError::NoSpace);
            },
            Some(child) => {
                let ghost c3 = fs.cache;
                let c = child[0];
                proof {
                    lemma_fat_layout(sb, c as int, 0);
                    assert(!chain1.contains(c)) by {
                        if chain1.contains(c) {
                            let i = choose|i: int| 0 <= i < chain1.len() && chain1[i] == c;
                            lemma_chain_in_use(&c2, sb, chain1, i);
                        }
                    }
                    assert forall|i: int| 0 <= i < chain1.len() implies #[trigger] fat_entry(&c3, chain1[i] as int) == fat_entry(&c2, chain1[i] as int) by {
                        lemma_chain_in_use(&c2, sb, chain1, i);
                        lemma_fat_layout(sb, chain1[i] as int, 0);
                        assert(!child@.contains(chain1[i])) by {
                            if child@.contains(chain1[i]) {
                                assert(child@[0] == chain1[i]);
                            }
                        }
                    }
                    lemma_chain_ok_frame(&c2, &c3, sb, chain1);
                }
                zero_cluster(&sb, &mut fs.cache, c);
                let ghost c4 = fs.cache;
                let inode = INode::new(t, nb, c as u32, self.clusters[0] as u32);
                let bytes = inode.encode();
                proof {
                    lemma_live_len(s0);
                    crate::fat::lemma_chain_len(sb, chain1);
                    assert(k < n_sectors(sb, chain1)) by (nonlinear_arith)
                        requires
                            k <= n_sectors(sb, chain0),
                            k == n_sectors(sb, chain0) ==> chain1.len() == chain0.len() + 1,
                            k < n_sectors(sb, chain0) ==> chain1 == chain0,
                            sb.sector_per_cluster >= 1,
                            n_sectors(sb, chain0) == chain0.len() * sb.sector_per_cluster,
                            n_sectors(sb, chain1) == chain1.len() * sb.sector_per_cluster,
                    ;
                }
                let addr = sector_of(&sb, &self.clusters, k);
                fs.cache.modify(addr, 0, bytes.as_slice());
                let ghost c5 = fs.cache;
                proof {
                    lemma_inode_round_trip(inode);
                    lemma_splice(c4.block(addr as int), 0, bytes@);
                    assert(same_below_data(&c4, &c3, sb)) by {
                        assert forall|x: int| x < sb.data_start() implies #[trigger] c4.block(x) == c3.block(x) by {
                            lemma_below_data(sb, x);
                        }
                    }
                    assert(same_below_data(&c5, &c4, sb));
                    lemma_fat_same_below(&c3, &c4, sb);
                    lemma_fat_same_below(&c4, &c5, sb);
                    assert forall|i: int| 0 <= i < chain1.len() implies #[trigger] fat_entry(&c5, chain1[i] as int) == fat_entry(&c3, chain1[i] as int) by {
                        lemma_fat_layout(sb, chain1[i] as int, 0);
                    }
                    lemma_chain_ok_frame(&c3, &c5, sb, chain1);
                    assert(fat_entry(&c5, c as int) == fat_entry(&c3, c as int));
                    assert(child@ =~= seq![c]);
                    lemma_chain_ok_frame(&c3, &c5, sb, seq![c]);
                    lemma_sector(sb, chain1, k as int);
                    // the slot's new bytes
                    let s1 = dir_slots(&c5, sb, chain1);
                    assert(s1[k as int] == c5.block(addr as int));
                    let sk = s1[k as int];
                    assert(sk.subrange(0, 64) == bytes@);
                    assert forall|o: int, w: int| 0 <= o && 0 <= w && o + w <= 64 implies #[trigger] sk.subrange(o, o + w) == bytes@.subrange(o, o + w) by {
                        assert(sk.subrange(o, o + w) =~= sk.subrange(0, 64).subrange(o, o + w));
                    }
                    assert(sk[0] == bytes@[0]);
                    assert(sk[17] == bytes@[17]);
                    assert(slot_name(sk) == nb@) by {
                        assert(sk.subrange(1, 17) == inode.i_name@);
                        assert(slot_name(sk) =~= inode.i_name@.subrange(0, nb@.len() as int));
                    }
                    // slots other than k
                    assert forall|j: int| 0 <= j < s1.len() && j != k implies #[trigger] s1[j] == if j < s0.len() {
                        s0[j]
                    } else {
                        zero_block()
                    } by {
                        lemma_sector(sb, chain1, j);
                        lemma_sector_distinct(sb, chain1, j, k as int);
                        let a = sector_addr(sb, chain1, j);
                        let ci = chain1[j / (sb.sector_per_cluster as int)];
                        assert(cluster_of(sb, a) == ci);
                        assert(ci != c);
                        assert(c4.block(a) == c3.block(a));
                        if j < s0.len() {
                            lemma_sector(sb, chain0, j);
                            assert(j / (sb.sector_per_cluster as int) < chain0.len());
                            assert(chain1[j / (sb.sector_per_cluster as int)] == chain0[j / (sb.sector_per_cluster as int)]);
                            assert(a == sector_addr(sb, chain0, j));
                            assert(s0[j] == c0.block(a));
                            assert(ca.block(a) == c0.block(a));
                            assert(c3.block(a) == c2.block(a));
                            if k == n {
                                assert(ci != chain1.last());
                            }
                        } else {
                            let spc = sb.sector_per_cluster as int;
                            vstd::arithmetic::div_mod::lemma_fundamental_div_mod(j, spc);
                            vstd::arithmetic::div_mod::lemma_mod_bound(j, spc);
                            let q = j / spc;
                            assert(q >= chain0.len()) by (nonlinear_arith)
                                requires
                                    j == spc * q + j % spc,
                                    j % spc < spc,
                                    j >= chain0.len() * spc,
                                    spc >= 1,
                            ;
                            assert(q == chain1.len() - 1);
                            assert(ci == chain1.last());
                        }
                    }
                    // the fresh clusters were free before
                    assert(same_blocks(&ca, &c0));
                    assert forall|x: int| 0 <= x < sb.end() implies #[trigger] fat_entry(&ca, x) == fat_entry(&c0, x) by {
                        assert(ca.block(fat_blk(x)) == c0.block(fat_blk(x)));
                    }
                    assert(fat_entry(&c2, c as int) == FAT_FREE);
                    if k == n {
                        let nc = chain1.last();
                        assert(chain1[chain1.len() - 2] == chain0.last());
                        assert(fat_entry(&c2, chain0.last() as int) == nc);
                        assert(c as int != chain0.last());
                        assert(c != nc);
                    }
                    assert(fat_entry(&c0, c as int) == FAT_FREE);
                    // FAT entries that were in use stay, but the old last one's
                    assert forall|x: int|
                        0 <= x < sb.end() && fat_entry(&c0, x) != FAT_FREE && x != chain0.last()
                        implies #[trigger] fat_entry(&c5, x) == fat_entry(&c0, x) by {
                        assert(fat_entry(&c2, x) == fat_entry(&c0, x)) by {
                            if k == n {
                                assert(fat_entry(&ca, chain1.last() as int) == FAT_FREE);
                                assert(chain1.last() as int != x);
                            }
                        }
                        assert(!child@.contains(x as usize)) by {
                            if child@.contains(x as usize) {
                                assert(child@[0] == x);
                            }
                        }
                    }
                    // blocks of clusters that were in use stay, but the slot's
                    assert forall|a: int|
                        a != sector_addr(sb, chain1, k as int) && !(512 <= a < sb.data_start()) && !(
                        sb.valid_cluster(cluster_of(sb, a)) && fat_entry(&c0, cluster_of(sb, a))
                            == FAT_FREE) implies #[trigger] c5.block(a) == c0.block(a) by {
                        assert(ca.block(a) == c0.block(a));
                        if a < 512 {
                            lemma_below_data(sb, a);
                        }
                        assert(c4.block(a) == c3.block(a));
                        if k == n {
                            assert(fat_entry(&ca, chain1.last() as int) == FAT_FREE);
                            assert(fat_entry(&c0, chain1.last() as int) == FAT_FREE);
                            assert(cluster_of(sb, a) != chain1.last());
                            assert(c1.block(a) == ca.block(a));
                            assert(c2.block(a) == c1.block(a));
                        }
                    }
                    // the child's sectors are zero
                    assert forall|a: int| cluster_of(sb, a) == c && a % 512 == 0 implies #[trigger] c5.block(a)
                        == zero_block() by {
                        assert(a != addr);
                    }
                    assert(slot_type(sk) == t);
                    assert(slot_cluster(sk) == c);
                }
                Ok((child, addr))
            },
        }
    }

    /// Makes a directory named `dir` in this one.
    pub fn mkdir<D: BlockDevice>(&mut self, fs: &mut FileSystem<D>, dir: &str) -> (r: Result<
        DirEntry,
        DirError,
    >)
        requires
            old(self).wf_in(old(fs)),
            dir.spec_bytes().len() <= NAME_CAP,
        ensures
            final(self).wf_in(final(fs)),
            final(fs).sb() == old(fs).sb(),
            has_name(old(self).slots(old(fs)), dir.spec_bytes()) <==> r == Err::<
                DirEntry,
                DirError,
            >(DirError::DirExist),
            !has_name(old(self).slots(old(fs)), dir.spec_bytes()) && illegal_name(dir.spec_bytes())
                <==> r == Err::<DirEntry, DirError>(DirError::IllegalChar),
            r is Err ==> r == Err::<DirEntry, DirError>(DirError::DirExist) || r == Err::<DirEntry, DirError>(
                DirError::IllegalChar,
            ) || r == Err::<DirEntry, DirError>(DirError::NoSpace),
            r == Err::<DirEntry, DirError>(DirError::NoSpace) ==> no_room(
                &old(fs).cm(),
                &final(fs).cm(),
                old(fs).sb(),
                old(self).slots(old(fs)),
            ) && final(self).chain() == old(self).chain(),
            r is Err && r != Err::<DirEntry, DirError>(DirError::NoSpace) ==> same_blocks(
                &final(fs).cm(),
                &old(fs).cm(),
            ) && final(self).chain() == old(self).chain(),
            r matches Ok(d) ==> d.wf_in(final(fs)) && d.chain().len() == 1 && created(
                &old(fs).cm(),
                &final(fs).cm(),
                old(fs).sb(),
                old(self).chain(),
                final(self).chain(),
                INodeType::DirEntry,
                dir.spec_bytes(),
                d.chain()[0],
            ),
    {
        match self.create_inner(fs, dir, INodeType::DirEntry, DirError::DirExist) {
            Ok((clusters, _)) => Ok(DirEntry { clusters }),
            Err(e) => Err(e),
        }
    }

    /// Makes an empty file named `file` in this directory.
    pub fn create_file<D: BlockDevice>(&mut self, fs: &mut FileSystem<D>, file: &str) -> (r:
        Result<FileEntry, DirError>)
        requires
            old(self).wf_in(old(fs)),
            file.spec_bytes().len() <= NAME_CAP,
        ensures
            final(self).wf_in(final(fs)),
            final(fs).sb() == old(fs).sb(),
            has_name(old(self).slots(old(fs)), file.spec_bytes()) <==> r == Err::<
                FileEntry,
                DirError,
            >(DirError::FileExist),
            !has_name(old(self).slots(old(fs)), file.spec_bytes()) && illegal_name(file.spec_bytes())
                <==> r == Err::<FileEntry, DirError>(DirError::IllegalChar),
            r is Err ==> r == Err::<FileEntry, DirError>(DirError::FileExist) || r == Err::<FileEntry, DirError>(
                DirError::IllegalChar,
            ) || r == Err::<FileEntry, DirError>(DirError::NoSpace),
            r == Err::<FileEntry, DirError>(DirError::NoSpace) ==> no_room(
                &old(fs).cm(),
                &final(fs).cm(),
                old(fs).sb(),
                old(self).slots(old(fs)),
            ) && final(self).chain() == old(self).chain(),
            r is Err && r != Err::<FileEntry, DirError>(DirError::NoSpace) ==> same_blocks(
                &final(fs).cm(),
                &old(fs).cm(),
            ) && final(self).chain() == old(self).chain(),
            r matches Ok(f) ==> {
                &&& f.wf_in(final(fs))
                &&& f.size_spec() == 0
                &&& f.cursor() == 0
                &&& f.chain().len() == 1
                &&& f.entry_addr() == sector_addr(
                    old(fs).sb(),
                    final(self).chain(),
                    live_len(old(self).slots(old(fs))),
                )
                &&& created(
                    &old(fs).cm(),
                    &final(fs).cm(),
                    old(fs).sb(),
                    old(self).chain(),
                    final(self).chain(),
                    INodeType::FileEntry,
                    file.spec_bytes(),
                    f.chain()[0],
                )
            },
    {
        let ghost s0 = self.slots(fs);
        match self.create_inner(fs, file, INodeType::FileEntry, DirError::FileExist) {
            Ok((clusters, addr)) => {
                let f = FileEntry { clusters, size: 0, seek_at: 0, addr };
                proof {
                    let sb = fs.sblock;
                    let chain1 = self.clusters@;
                    let k = live_len(s0);
                    lemma_live_len(s0);
                    assert(dir_slots(&fs.cache, sb, chain1).len() == n_sectors(sb, chain1));
                    lemma_sector(sb, chain1, k);
                    let j = k / (sb.sector_per_cluster as int);
                    lemma_chain_in_use(&fs.cache, sb, chain1, j);
                    assert(!in_chain(clusters@, cluster_of(sb, addr as int))) by {
                        if in_chain(clusters@, cluster_of(sb, addr as int)) {
                            assert(clusters@[0] == chain1[j]);
                        }
                    }
                    assert(clusters@ =~= seq![clusters@[0]]);
                }
                Ok(f)
            },
            Err(e) => Err(e),
        }
    }

    /// The first listed entry named `name` and the address of its sector.
    fn find_tuple<D: BlockDevice>(
        &self,
        sb: &SuperBlock,
        cm: &mut BlockCacheManager<D>,
        name: &[u8],
    ) -> (r: Option<(INode, usize, usize)>)
        requires
            old(cm).wf(),
            sb.wf(),
            chain_ok(old(cm), *sb, self.clusters@),
        ensures
            final(cm).wf(),
            same_blocks(final(cm), old(cm)),
            r is None <==> !has_name(dir_slots(old(cm), *sb, self.clusters@), name@),
            r matches Some((i, addr, k)) ==> {
                let s = dir_slots(old(cm), *sb, self.clusters@);
                &&& first_named(s, name@, k as int)
                &&& decodes(i, s[k as int])
                &&& addr == sector_addr(*sb, self.clusters@, k as int)
                &&& forall|k2: int| first_named(s, name@, k2) ==> k2 == k
            },
    {
        let ghost s = dir_slots(cm, *sb, self.clusters@);
        let (found, k) = self.scan(sb, cm, name);
        match found {
            None => None,
            Some(i) => {
                proof {
                    lemma_live_len(s);
                    assert forall|k2: int| first_named(s, name@, k2) implies k2 == k by {
                        if k2 < k {
                        } else if k < k2 {
                        }
                    }
                    assert(has_name(s, name@));
                }
                let addr = sector_of(sb, &self.clusters, k);
                Some((i, addr, k))
            },
        }
    }

    /// The file named `file` among this directory's entries, its cursor at
    /// the start. An entry whose chain cannot be walked, is too short for its
    /// size, or holds the directory's own sector is not taken for a file.
    pub fn open_file<D: BlockDevice>(&self, fs: &mut FileSystem<D>, file: &str) -> (r: Result<
        FileEntry,
        DirError,
    >)
        requires
            self.wf_in(old(fs)),
        ensures
            final(fs).wf(),
            final(fs).sb() == old(fs).sb(),
            same_blocks(&final(fs).cm(), &old(fs).cm()),
            r matches Err(e) ==> e == DirError::NotFoundFile,
            r matches Ok(f) ==> f.wf_in(final(fs)) && f.cursor() == 0 && exists|k: int|
                first_named(self.slots(old(fs)), file.spec_bytes(), k) && slot_type(
                    #[trigger] self.slots(old(fs))[k],
                ) == INodeType::FileEntry && f.chain()[0] == slot_cluster(self.slots(old(fs))[k])
                    && f.size_spec() == slot_size(self.slots(old(fs))[k]) && f.entry_addr()
                    == sector_addr(old(fs).sb(), self.chain(), k),
            forall|k: int, ch: Seq<usize>|
                first_named(self.slots(old(fs)), file.spec_bytes(), k) && slot_type(
                    #[trigger] self.slots(old(fs))[k],
                ) == INodeType::FileEntry && #[trigger] chain_ok(&old(fs).cm(), old(fs).sb(), ch)
                    && ch[0] == slot_cluster(self.slots(old(fs))[k]) && slot_size(
                    self.slots(old(fs))[k],
                ) <= n_sectors(old(fs).sb(), ch) * 512 && !in_chain(
                    ch,
                    cluster_of(old(fs).sb(), sector_addr(old(fs).sb(), self.chain(), k)),
                ) ==> r is Ok && r.unwrap().chain() == ch,
    {
        let ghost s = self.slots(fs);
        let ghost c0 = fs.cache;
        let sb = fs.sblock;
        let found = self.find_tuple(&sb, &mut fs.cache, file.as_bytes());
        let (inode, addr, k) = match found {
            None => {
                proof {
                    assert forall|k2: int, ch: Seq<usize>|
                        first_named(s, file.spec_bytes(), k2) && slot_type(#[trigger] s[k2])
                            == INodeType::FileEntry && #[trigger] chain_ok(&c0, sb, ch) implies false by {
                        assert(slot_name(s[k2]) == file.spec_bytes());
                    }
                }
                return Err(DirError::NotFoundFile);
            },
            Some(t) => t,
        };
        if !inode.is_file() {
            return Err(DirError::NotFoundFile);
        }
        let ghost c1 = fs.cache;
        let clusters = match read_clusters(&sb, &mut fs.cache, inode.cluster()) {
            None => {
                proof {
                    assert forall|k2: int, ch: Seq<usize>|
                        first_named(s, file.spec_bytes(), k2) && slot_type(#[trigger] s[k2])
                            == INodeType::FileEntry && #[trigger] chain_ok(&c0, sb, ch)
                            && ch[0] == slot_cluster(s[k2]) implies false by {
                        lemma_chain_ok_same(&c0, &c1, sb, ch);
                    }
                }
                return Err(DirError::NotFoundFile);
            },
            Some(c) => c,
        };
        let n = chain_sectors(&sb, &clusters);
        let size = inode.size();
        proof {
            lemma_live_len(s);
            lemma_sector(sb, self.clusters@, k as int);
            lemma_chain_ok_same(&c0, &fs.cache, sb, self.clusters@);
            lemma_chain_ok_same(&c1, &fs.cache, sb, clusters@);
            crate::sblock::lemma_offset_bounds(sb, 2);
        }
        let pc = addr / (sb.sector_per_cluster * BLOCK_SIZE);
        if size > n * BLOCK_SIZE || chain_has(&clusters, pc) {
            proof {
                assert forall|k2: int, ch: Seq<usize>|
                    first_named(s, file.spec_bytes(), k2) && slot_type(#[trigger] s[k2])
                        == INodeType::FileEntry && #[trigger] chain_ok(&c0, sb, ch)
                        && ch[0] == slot_cluster(s[k2]) && slot_size(s[k2]) <= n_sectors(sb, ch) * 512
                        && !in_chain(ch, cluster_of(sb, sector_addr(sb, self.clusters@, k2))) implies false by {
                    lemma_chain_ok_same(&c0, &c1, sb, ch);
                }
            }
            return Err(DirError::NotFoundFile);
        }
        let f = FileEntry { clusters, size, seek_at: 0, addr };
        proof {
            let j = (k as int) / (sb.sector_per_cluster as int);
            lemma_chain_in_use(&fs.cache, sb, self.clusters@, j);
            assert forall|k2: int, ch: Seq<usize>|
                first_named(s, file.spec_bytes(), k2) && slot_type(#[trigger] s[k2])
                    == INodeType::FileEntry && #[trigger] chain_ok(&c0, sb, ch)
                    && ch[0] == slot_cluster(s[k2]) implies f.clusters@ == ch by {
                lemma_chain_ok_same(&c0, &c1, sb, ch);
            }
        }
        Ok(f)
    }

    /// Zeroes the slot at `addr`.
    fn clean_entry<D: BlockDevice>(&self, fs: &mut FileSystem<D>, addr: usize)
        requires
            old(fs).wf(),
            addr % 512 == 0,
            addr + BLOCK_SIZE <= 0x8000_0000,
            addr >= old(fs).sb().data_start(),
        ensures
            final(fs).wf(),
            final(fs).sb() == old(fs).sb(),
            final(fs).fat == old(fs).fat,
            final(fs).cm().block(addr as int) == zero_block(),
            forall|a: int| a != addr ==> #[trigger] final(fs).cm().block(a) == old(fs).cm().block(a),
    {
        let zeros: Vec<u8> = vec![0u8; BLOCK_SIZE];
        assert(zeros@ =~= zero_block());
        crate::chain::write_block(&mut fs.cache, addr, zeros.as_slice());
    }

    /// Deletes the entry named `name`: a directory with everything below
    /// it, a file with its bytes. Its slot becomes free; every cluster of
    /// its chain and of the chains below it (found on the volume as it was)
    /// is zeroed, freed and handed to the allocator for reuse, except
    /// clusters of this directory's own chain, which stay untouched.
    pub fn delete<D: BlockDevice>(&mut self, fs: &mut FileSystem<D>, name: &str) -> (r: Result<
        (),
        DirError,
    >)
        requires
            old(self).wf_in(old(fs)),
        ensures
            final(self).wf_in(final(fs)),
            final(self).chain() == old(self).chain(),
            final(fs).sb() == old(fs).sb(),
            !has_name(old(self).slots(old(fs)), name.spec_bytes()) <==> r == Err::<(), DirError>(
                DirError::NotFound,
            ),
            r is Err ==> same_blocks(&final(fs).cm(), &old(fs).cm()),
            has_name(old(self).slots(old(fs)), name.spec_bytes()) ==> r is Ok,
            r is Ok ==> only_zeroed(&old(fs).cm(), &final(fs).cm(), old(fs).sb()),
            r is Ok ==> !has_name(final(self).slots(final(fs)), name.spec_bytes()),
            r is Ok ==> extends(old(fs).recycled(), final(fs).recycled()),
            forall|k: int|
                r is Ok && first_named(old(self).slots(old(fs)), name.spec_bytes(), k) ==> #[trigger] final(self).slots(final(fs))[k] == zero_block(),
            forall|k: int, ch: Seq<usize>, c: int|
                r is Ok && #[trigger] first_named(old(self).slots(old(fs)), name.spec_bytes(), k) && #[trigger] chain_ok(
                    &old(fs).cm(),
                    old(fs).sb(),
                    ch,
                ) && ch[0] == slot_cluster(old(self).slots(old(fs))[k]) && #[trigger] below_entry(
                    &old(fs).cm(),
                    old(fs).sb(),
                    ch,
                    slot_type(old(self).slots(old(fs))[k]),
                    c,
                ) && !in_chain(old(self).chain(), c) ==> gone(&final(fs).cm(), old(fs).sb(), c)
                    && in_chain(final(fs).recycled(), c),
    {
        let ghost c0 = fs.cache;
        let ghost s0 = self.slots(fs);
        let ghost rec0 = fs.recycled();
        let sb = fs.sblock;
        let found = self.find_tuple(&sb, &mut fs.cache, name.as_bytes());
        let (inode, addr, k) = match found {
            None => {
                proof {
                    lemma_chain_ok_same(&c0, &fs.cache, sb, self.clusters@);
                }
                return Err(DirError::NotFound);
            },
            Some(t) => t,
        };
        let ghost c1 = fs.cache;
        let walked = read_clusters(&sb, &mut fs.cache, inode.cluster());
        let ghost c2 = fs.cache;
        let empty: Vec<usize> = Vec::new();
        let mut doomed: Vec<usize> = Vec::new();
        match walked {
            Some(ch) => {
                doomed = concat(&empty, &ch);
                proof {
                    assert(doomed@ =~= ch@);
                    lemma_chain_ok_same(&c1, &c2, sb, ch@);
                }
                if inode.is_dir() {
                    subtree_clusters(&sb, &mut fs.cache, &ch, sb.fat_end(), &mut doomed);
                }
                proof {
                    assert forall|c: int| below_entry(&c0, sb, ch@, slot_type(s0[k as int]), c) implies in_chain(doomed@, c) by {
                        if in_chain(ch@, c) {
                            let x = choose|x: int| 0 <= x < ch@.len() && ch@[x] as int == c;
                            assert(doomed@.subrange(0, ch@.len() as int)[x] == doomed@[x]);
                        } else {
                            lemma_reach_same(&c0, &c2, sb, ch@, sb.end() as nat, c);
                        }
                    }
                }
            },
            None => {},
        }
        let ghost c3 = fs.cache;
        proof {
            lemma_live_len(s0);
            lemma_sector(sb, self.clusters@, k as int);
        }
        self.clean_entry(fs, addr);
        let ghost c4 = fs.cache;
        proof {
            assert forall|x: int| 0 <= x < sb.end() implies #[trigger] fat_entry(&c4, x) == fat_entry(&c0, x) by {
                lemma_fat_layout(sb, x, 0);
                assert(c4.block(crate::fat::fat_blk(x)) == c3.block(crate::fat::fat_blk(x)));
                assert(c3.block(crate::fat::fat_blk(x)) == c0.block(crate::fat::fat_blk(x)));
            }
        }
        wipe_clusters(fs, &doomed, &self.clusters);
        proof {
            let c5 = fs.cache;
            assert forall|i: int| 0 <= i < self.clusters@.len() implies #[trigger] fat_entry(&c5, self.clusters@[i] as int) == fat_entry(&c0, self.clusters@[i] as int) by {
                assert(in_chain(self.clusters@, self.clusters@[i] as int));
                lemma_fat_layout(sb, self.clusters@[i] as int, 0);
            }
            lemma_chain_ok_frame(&c0, &c5, sb, self.clusters@);
            assert forall|a: int| !(512 <= a < sb.data_start()) implies #[trigger] c5.block(a) == c0.block(a) || (a >= sb.data_start() && c5.block(a) == zero_block()) by {
                assert(c3.block(a) == c0.block(a));
                assert(c4.block(a) == c3.block(a) || (a == addr && c4.block(a) == zero_block()));
                assert(c5.block(a) == c4.block(a) || (a >= sb.data_start() && c5.block(a) == zero_block()));
            }
            let s5 = self.slots(fs);
            lemma_sector(sb, self.clusters@, k as int);
            let kk = (k as int) / (sb.sector_per_cluster as int);
            assert(in_chain(self.clusters@, self.clusters@[kk] as int));
            assert(s5[k as int] == c5.block(addr as int));
            assert(c5.block(addr as int) == c4.block(addr as int));
            assert(s5[k as int] == zero_block());
            assert forall|j: int| 0 <= j < s5.len() implies #[trigger] s5[j] == s0[j] || s5[j] == zero_block() by {
                lemma_sector(sb, self.clusters@, j);
                let a = sector_addr(sb, self.clusters@, j);
                assert(c5.block(a) == c0.block(a) || (a >= sb.data_start() && c5.block(a) == zero_block()));
            }
            lemma_zeroed_no_name(s0, s5, name.spec_bytes(), k as int);
            assert forall|k2: int| first_named(s0, name.spec_bytes(), k2) implies #[trigger] s5[k2] == zero_block() by {
                assert(k2 == k);
            }
            assert forall|k2: int, ch: Seq<usize>, c: int|
                #[trigger] first_named(s0, name.spec_bytes(), k2) && #[trigger] chain_ok(&c0, sb, ch)
                    && ch[0] == slot_cluster(s0[k2]) && #[trigger] below_entry(&c0, sb, ch, slot_type(s0[k2]), c)
                    && !in_chain(self.clusters@, c)
                implies gone(&c5, sb, c) && in_chain(fs.recycled(), c) by {
                assert(k2 == k);
                lemma_chain_ok_same(&c0, &c1, sb, ch);
                assert(walked is Some && walked.unwrap()@ == ch);
                assert(inode.i_type == slot_type(s0[k as int]));
                assert(in_chain(doomed@, c));
            }
        }
        Ok(())
    }

    /// The first cluster of the directory's chain.
    pub fn first_cluster(&self) -> (r: usize)
        requires
            self.chain().len() > 0,
        ensures
            r == self.chain()[0],
    {
        self.clusters[0]
    }
}

/// Every block below the data region reads the same through `a` and `b`.
pub open spec fn same_below_data<D: BlockDevice>(
    a: &BlockCacheManager<D>,
    b: &BlockCacheManager<D>,
    sb: SuperBlock,
) -> bool {
    forall|x: int| x < sb.data_start() ==> #[trigger] a.block(x) == b.block(x)
}

/// FAT entries of valid clusters live below the data region.
pub proof fn lemma_fat_same_below<D: BlockDevice>(
    c1: &BlockCacheManager<D>,
    c2: &BlockCacheManager<D>,
    sb: SuperBlock,
)
    requires
        sb.wf(),
        same_below_data(c2, c1, sb),
    ensures
        forall|x: int| 0 <= x < sb.end() ==> #[trigger] fat_entry(c2, x) == fat_entry(c1, x),
{
    assert forall|x: int| 0 <= x < sb.end() implies #[trigger] fat_entry(c2, x) == fat_entry(c1, x) by {
        lemma_fat_layout(sb, x, 0);
        assert(c2.block(fat_blk(x)) == c1.block(fat_blk(x)));
    }
}

/// Blocks below the data region belong to no cluster of the data region.
pub proof fn lemma_below_data(sb: SuperBlock, a: int)
    requires
        sb.wf(),
        a < sb.data_start(),
    ensures
        cluster_of(sb, a) < 2,
{
    let cb = sb.cluster_bytes();
    assert(sb.data_start() == 2 * cb);
    if cluster_of(sb, a) >= 2 {
        vstd::arithmetic::div_mod::lemma_fundamental_div_mod(a, cb);
        vstd::arithmetic::div_mod::lemma_mod_bound(a, cb);
        assert(cb * (a / cb) >= cb * 2) by (nonlinear_arith)
            requires
                a / cb >= 2,
                cb > 0,
        ;
    }
}

/// One cluster holds a block.
pub proof fn lemma_one_cluster(sb: SuperBlock)
    requires
        sb.wf(),
    ensures
        crate::fat::clusters_needed(BLOCK_SIZE as int, sb.cluster_bytes()) == 1,
{
    let cb = sb.cluster_bytes();
    if sb.sector_per_cluster == 1 {
        assert(cb == 512);
    } else {
        assert(cb > 512);
        vstd::arithmetic::div_mod::lemma_basic_div(512, cb);
        vstd::arithmetic::div_mod::lemma_small_mod(512, cb as nat);
    }
}

/// `cm1` is `cm0` after an entry of type `t` named `name`, whose data is the
/// fresh zeroed cluster `c`, was stored in the first free slot of the
/// directory in `chain0`; `chain1` is that directory's chain afterwards, one
/// fresh zeroed cluster longer when it had no free slot. Besides, only the
/// FAT entries of those fresh clusters and of the old last cluster change,
/// and no block of a cluster that was in use but the slot's.
pub open spec fn created<D: BlockDevice>(
    cm0: &BlockCacheManager<D>,
    cm1: &BlockCacheManager<D>,
    sb: SuperBlock,
    chain0: Seq<usize>,
    chain1: Seq<usize>,
    t: INodeType,
    name: Seq<u8>,
    c: usize,
) -> bool {
    let s0 = dir_slots(cm0, sb, chain0);
    let s1 = dir_slots(cm1, sb, chain1);
    let k = live_len(s0);
    &&& if k < s0.len() {
        chain1 == chain0
    } else {
        &&& chain1.len() == chain0.len() + 1
        &&& chain1.subrange(0, chain0.len() as int) == chain0
        &&& fat_entry(cm0, chain1.last() as int) == FAT_FREE
    }
    &&& chain_ok(cm1, sb, chain1)
    &&& k < s1.len()
    &&& forall|j: int|
        0 <= j < s1.len() && j != k ==> #[trigger] s1[j] == if j < s0.len() {
            s0[j]
        } else {
            zero_block()
        }
    &&& slot_type(s1[k]) == t
    &&& slot_name(s1[k]) == name
    &&& slot_cluster(s1[k]) == c
    &&& slot_size(s1[k]) == 0
    &&& u32_at(s1[k], 56) == chain0[0]
    &&& sb.valid_cluster(c as int)
    &&& !chain1.contains(c)
    &&& fat_entry(cm0, c as int) == FAT_FREE
    &&& chain_ok(cm1, sb, seq![c])
    &&& forall|a: int|
        cluster_of(sb, a) == c && a % 512 == 0 ==> #[trigger] cm1.block(a) == zero_block()
    &&& forall|x: int|
        0 <= x < sb.end() && fat_entry(cm0, x) != FAT_FREE && x != chain0.last()
            ==> #[trigger] fat_entry(cm1, x) == fat_entry(cm0, x)
    &&& forall|a: int|
        a != sector_addr(sb, chain1, k) && !(512 <= a < sb.data_start()) && !(sb.valid_cluster(
            cluster_of(sb, a),
        ) && fat_entry(cm0, cluster_of(sb, a)) == FAT_FREE) ==> #[trigger] cm1.block(a)
            == cm0.block(a)
}

/// A refused creation for want of space: fewer free clusters than it needs
/// (one for the entry's data, one more when the directory has no free slot),
/// and the FAT and every cluster in use read as before.
pub open spec fn no_room<D: BlockDevice>(
    cm0: &BlockCacheManager<D>,
    cm1: &BlockCacheManager<D>,
    sb: SuperBlock,
    s0: Seq<Seq<u8>>,
) -> bool {
    &&& free_set(cm0, sb).len() < if live_len(s0) == s0.len() {
        2int
    } else {
        1int
    }
    &&& forall|x: int| 0 <= x < sb.end() ==> #[trigger] fat_entry(cm1, x) == fat_entry(cm0, x)
    &&& forall|a: int|
        !(512 <= a < sb.data_start()) && !(sb.valid_cluster(cluster_of(sb, a)) && fat_entry(
            cm0,
            cluster_of(sb, a),
        ) == FAT_FREE) ==> #[trigger] cm1.block(a) == cm0.block(a)
}

/// Slot `k` holds the first listed entry named `name`.
pub open spec fn first_named(s: Seq<Seq<u8>>, name: Seq<u8>, k: int) -> bool {
    &&& 0 <= k < live_len(s)
    &&& slot_name(s[k]) == name
    &&& forall|j: int| 0 <= j < k ==> slot_name(#[trigger] s[j]) != name
}

/// Every slot after the first free one is free too: the directory has no
/// entries hidden behind a freed slot.
pub open spec fn compact(s: Seq<Seq<u8>>) -> bool {
    forall|j: int| live_len(s) <= j < s.len() ==> !slot_valid(#[trigger] s[j])
}

proof fn lemma_created_slots<D: BlockDevice>(
    cm0: &BlockCacheManager<D>,
    cm1: &BlockCacheManager<D>,
    sb: SuperBlock,
    chain0: Seq<usize>,
    chain1: Seq<usize>,
    t: INodeType,
    name: Seq<u8>,
    c: usize,
)
    requires
        created(cm0, cm1, sb, chain0, chain1, t, name, c),
        t != INodeType::NoneEntry,
    ensures
        ({
            let s0 = dir_slots(cm0, sb, chain0);
            let s1 = dir_slots(cm1, sb, chain1);
            let k = live_len(s0);
            &&& 0 <= k < s1.len()
            &&& s0.len() <= s1.len()
            &&& live_len(s1) > k
            &&& forall|j: int| 0 <= j < k ==> #[trigger] s1[j] == s0[j]
        }),
{
    let s0 = dir_slots(cm0, sb, chain0);
    let s1 = dir_slots(cm1, sb, chain1);
    let k = live_len(s0);
    lemma_live_len(s0);
    lemma_live_len(s1);
    assert forall|j: int| 0 <= j < k implies #[trigger] s1[j] == s0[j] by {
        assert(s1[j] == if j < s0.len() { s0[j] } else { zero_block() });
    }
    if live_len(s1) <= k {
        if live_len(s1) < k {
            assert(s1[live_len(s1)] == s0[live_len(s1)]);
        }
    }
    if chain1 != chain0 {
        assert(s1.len() == n_sectors(sb, chain1));
        assert(n_sectors(sb, chain1) >= n_sectors(sb, chain0)) by (nonlinear_arith)
            requires
                chain1.len() == chain0.len() + 1,
                n_sectors(sb, chain1) == chain1.len() * sb.sector_per_cluster,
                n_sectors(sb, chain0) == chain0.len() * sb.sector_per_cluster,
        ;
    }
}

/// Creating an entry in a directory with no entries hidden behind a free
/// slot lists it after the entries that were there, which stay as they
/// were, and keeps the directory so.
pub proof fn lemma_create_appends<D: BlockDevice>(
    cm0: &BlockCacheManager<D>,
    cm1: &BlockCacheManager<D>,
    sb: SuperBlock,
    chain0: Seq<usize>,
    chain1: Seq<usize>,
    t: INodeType,
    name: Seq<u8>,
    c: usize,
)
    requires
        created(cm0, cm1, sb, chain0, chain1, t, name, c),
        t != INodeType::NoneEntry,
        compact(dir_slots(cm0, sb, chain0)),
    ensures
        ({
            let s0 = dir_slots(cm0, sb, chain0);
            let s1 = dir_slots(cm1, sb, chain1);
            &&& live_len(s1) == live_len(s0) + 1
            &&& forall|j: int| 0 <= j < live_len(s0) ==> #[trigger] s1[j] == s0[j]
            &&& slot_type(s1[live_len(s0)]) == t
            &&& slot_name(s1[live_len(s0)]) == name
            &&& compact(s1)
        }),
{
    let s0 = dir_slots(cm0, sb, chain0);
    let s1 = dir_slots(cm1, sb, chain1);
    let k = live_len(s0);
    lemma_created_slots(cm0, cm1, sb, chain0, chain1, t, name, c);
    lemma_live_len(s0);
    assert(!slot_valid(zero_block()));
    assert forall|j: int| k + 1 <= j < s1.len() implies !slot_valid(#[trigger] s1[j]) by {
        assert(s1[j] == if j < s0.len() { s0[j] } else { zero_block() });
    }
    assert forall|j: int| 0 <= j < k + 1 implies slot_valid(#[trigger] s1[j]) by {
        if j < k {
            assert(s1[j] == s0[j]);
        }
    }
    lemma_live_is(s1, k + 1);
}

/// After a directory is made under a name no listed entry had, looking that
/// name up finds it: the first listed entry with that name is a directory
/// whose chain is the new one-cluster chain.
pub proof fn lemma_mkdir_then_cd<D: BlockDevice>(
    cm0: &BlockCacheManager<D>,
    cm1: &BlockCacheManager<D>,
    sb: SuperBlock,
    chain0: Seq<usize>,
    chain1: Seq<usize>,
    name: Seq<u8>,
    c: usize,
)
    requires
        created(cm0, cm1, sb, chain0, chain1, INodeType::DirEntry, name, c),
        !has_name(dir_slots(cm0, sb, chain0), name),
    ensures
        ({
            let s1 = dir_slots(cm1, sb, chain1);
            let k = live_len(dir_slots(cm0, sb, chain0));
            &&& first_named(s1, name, k)
            &&& slot_type(s1[k]) == INodeType::DirEntry
            &&& chain_ok(cm1, sb, seq![c])
            &&& seq![c][0] == slot_cluster(s1[k])
        }),
{
    let s0 = dir_slots(cm0, sb, chain0);
    let s1 = dir_slots(cm1, sb, chain1);
    let k = live_len(s0);
    lemma_created_slots(cm0, cm1, sb, chain0, chain1, INodeType::DirEntry, name, c);
    assert forall|j: int| 0 <= j < k implies slot_name(#[trigger] s1[j]) != name by {
        assert(s1[j] == s0[j]);
    }
}

/// After a file is made under a name no listed entry had, the name is taken
/// (making it again is refused) and opening it finds it: the first listed
/// entry with that name is a file of size 0 whose chain is the new
/// one-cluster chain, apart from the directory's sector that holds it.
pub proof fn lemma_create_file_then_open<D: BlockDevice>(
    cm0: &BlockCacheManager<D>,
    cm1: &BlockCacheManager<D>,
    sb: SuperBlock,
    chain0: Seq<usize>,
    chain1: Seq<usize>,
    name: Seq<u8>,
    c: usize,
)
    requires
        sb.wf(),
        created(cm0, cm1, sb, chain0, chain1, INodeType::FileEntry, name, c),
        !has_name(dir_slots(cm0, sb, chain0), name),
    ensures
        ({
            let s1 = dir_slots(cm1, sb, chain1);
            let k = live_len(dir_slots(cm0, sb, chain0));
            &&& has_name(s1, name)
            &&& first_named(s1, name, k)
            &&& slot_type(s1[k]) == INodeType::FileEntry
            &&& chain_ok(cm1, sb, seq![c])
            &&& seq![c][0] == slot_cluster(s1[k])
            &&& slot_size(s1[k]) <= n_sectors(sb, seq![c]) * 512
            &&& !in_chain(seq![c], cluster_of(sb, sector_addr(sb, chain1, k)))
        }),
{
    let s0 = dir_slots(cm0, sb, chain0);
    let s1 = dir_slots(cm1, sb, chain1);
    let k = live_len(s0);
    lemma_created_slots(cm0, cm1, sb, chain0, chain1, INodeType::FileEntry, name, c);
    assert forall|j: int| 0 <= j < k implies slot_name(#[trigger] s1[j]) != name by {
        assert(s1[j] == s0[j]);
    }
    assert(slot_name(s1[k]) == name);
    assert(s1.len() == n_sectors(sb, chain1));
    lemma_sector(sb, chain1, k);
    let j = k / (sb.sector_per_cluster as int);
    if in_chain(seq![c], cluster_of(sb, sector_addr(sb, chain1, k))) {
        assert(chain1[j] == c);
        assert(chain1.contains(c));
    }
    assert(n_sectors(sb, seq![c]) * 512 >= 0) by (nonlinear_arith)
        requires
            n_sectors(sb, seq![c]) == 1 * sb.sector_per_cluster,
    ;
}

/// `cms[i + 1]` is `cms[i]` after the `i`-th of a run of creations in one
/// directory: an entry of type `types[i]` named `names[i]` with data in
/// cluster `cs[i]`, the directory's chain going from `chains[i]` to
/// `chains[i + 1]`.
pub open spec fn creations<D: BlockDevice>(
    cms: Seq<BlockCacheManager<D>>,
    sb: SuperBlock,
    chains: Seq<Seq<usize>>,
    types: Seq<INodeType>,
    names: Seq<Seq<u8>>,
    cs: Seq<usize>,
) -> bool {
    &&& cms.len() == names.len() + 1
    &&& chains.len() == names.len() + 1
    &&& types.len() == names.len()
    &&& cs.len() == names.len()
    &&& forall|i: int|
        0 <= i < names.len() ==> types[i] != INodeType::NoneEntry && #[trigger] created(
            &cms[i],
            &cms[i + 1],
            sb,
            chains[i],
            chains[i + 1],
            types[i],
            names[i],
            cs[i],
        )
}

/// A directory that was empty lists, after a run of creations and nothing
/// else, exactly the created entries in the order they were made: here after
/// the first `m` of them.
pub proof fn lemma_creations_listed<D: BlockDevice>(
    cms: Seq<BlockCacheManager<D>>,
    sb: SuperBlock,
    chains: Seq<Seq<usize>>,
    types: Seq<INodeType>,
    names: Seq<Seq<u8>>,
    cs: Seq<usize>,
    m: int,
)
    requires
        creations(cms, sb, chains, types, names, cs),
        0 <= m <= names.len(),
        live_len(dir_slots(&cms[0], sb, chains[0])) == 0,
        compact(dir_slots(&cms[0], sb, chains[0])),
    ensures
        ({
            let s = dir_slots(&cms[m], sb, chains[m]);
            &&& live_len(s) == m
            &&& compact(s)
            &&& forall|i: int|
                0 <= i < m ==> slot_type(#[trigger] s[i]) == types[i] && slot_name(s[i]) == names[i]
        }),
    decreases m,
{
    if m > 0 {
        lemma_creations_listed(cms, sb, chains, types, names, cs, m - 1);
        let j = m - 1;
        assert(created(&cms[j], &cms[j + 1], sb, chains[j], chains[j + 1], types[j], names[j], cs[j]));
        assert(j + 1 == m);
        lemma_create_appends(&cms[m - 1], &cms[m], sb, chains[m - 1], chains[m], types[m - 1], names[m - 1], cs[m - 1]);
        let sp = dir_slots(&cms[m - 1], sb, chains[m - 1]);
        let s = dir_slots(&cms[m], sb, chains[m]);
        assert forall|i: int| 0 <= i < m implies slot_type(#[trigger] s[i]) == types[i] && slot_name(s[i]) == names[i] by {
            if i < m - 1 {
                assert(s[i] == sp[i]);
            }
        }
    }
}

/// An entry made in a run of creations (each under a name not listed
/// before) stays where it was put through the later creations: it is the
/// first listed entry with its name, of its type and size 0, its data the
/// one-cluster chain it was made with, apart from the directory's clusters.
/// So looking it up finds it (`cd`, `open_file`), and making it again is
/// refused.
pub proof fn lemma_made_stays_found<D: BlockDevice>(
    cms: Seq<BlockCacheManager<D>>,
    sb: SuperBlock,
    chains: Seq<Seq<usize>>,
    types: Seq<INodeType>,
    names: Seq<Seq<u8>>,
    cs: Seq<usize>,
    m: int,
    last: int,
)
    requires
        sb.wf(),
        creations(cms, sb, chains, types, names, cs),
        forall|i: int|
            0 <= i < names.len() ==> !has_name(#[trigger] dir_slots(&cms[i], sb, chains[i]), names[i]),
        0 <= m < last <= names.len(),
    ensures
        ({
            let k = live_len(dir_slots(&cms[m], sb, chains[m]));
            let s = dir_slots(&cms[last], sb, chains[last]);
            &&& first_named(s, names[m], k)
            &&& has_name(s, names[m])
            &&& slot_type(s[k]) == types[m]
            &&& slot_cluster(s[k]) == cs[m]
            &&& slot_size(s[k]) == 0
            &&& chain_ok(&cms[last], sb, seq![cs[m]])
            &&& !chains[last].contains(cs[m])
            &&& !in_chain(seq![cs[m]], cluster_of(sb, sector_addr(sb, chains[last], k)))
            &&& slot_size(s[k]) <= n_sectors(sb, seq![cs[m]]) * 512
        }),
    decreases last - m,
{
    let k = live_len(dir_slots(&cms[m], sb, chains[m]));
    let c = cs[m];
    if last == m + 1 {
        let j = m;
        assert(created(&cms[j], &cms[j + 1], sb, chains[j], chains[j + 1], types[j], names[j], cs[j]));
        assert(j + 1 == last);
        lemma_created_slots(&cms[m], &cms[last], sb, chains[m], chains[last], types[m], names[m], c);
        let s0 = dir_slots(&cms[m], sb, chains[m]);
        let s1 = dir_slots(&cms[last], sb, chains[last]);
        assert(!has_name(s0, names[m]));
        assert forall|i: int| 0 <= i < k implies slot_name(#[trigger] s1[i]) != names[m] by {
            assert(s1[i] == s0[i]);
        }
        assert(slot_name(s1[k]) == names[m]);
    } else {
        lemma_made_stays_found(cms, sb, chains, types, names, cs, m, last - 1);
        let p = last - 1;
        assert(created(&cms[p], &cms[p + 1], sb, chains[p], chains[p + 1], types[p], names[p], cs[p]));
        assert(p + 1 == last);
        lemma_created_slots(&cms[p], &cms[last], sb, chains[p], chains[last], types[p], names[p], cs[p]);
        let sp = dir_slots(&cms[p], sb, chains[p]);
        let s1 = dir_slots(&cms[last], sb, chains[last]);
        lemma_live_len(sp);
        assert forall|i: int| 0 <= i <= k implies #[trigger] s1[i] == sp[i] by {
            assert(s1[i] == if i < sp.len() { sp[i] } else { zero_block() });
        }
        // the entry's data cluster is in use and not the directory's
        crate::dir::lemma_chain_in_use(&cms[p], sb, seq![c], 0);
        lemma_fat_layout(sb, c as int, 0);
        let pp = p - 1;
        assert(created(&cms[pp], &cms[pp + 1], sb, chains[pp], chains[pp + 1], types[pp], names[pp], cs[pp]));
        assert(pp + 1 == p);
        assert(chains[p].len() > 0);
        assert(chains[p][chains[p].len() - 1] == chains[p].last());
        assert(c as int != chains[p].last());
        assert(fat_entry(&cms[last], c as int) == fat_entry(&cms[p], c as int));
        assert(!chains[last].contains(c)) by {
            if chains[last].contains(c) {
                let i = choose|i: int| 0 <= i < chains[last].len() && chains[last][i] == c;
                if i < chains[p].len() {
                    assert(chains[last].subrange(0, chains[p].len() as int)[i] == chains[last][i]);
                } else {
                    assert(chains[last][i] == chains[last].last());
                }
            }
        }
        assert(chain_ok(&cms[last], sb, seq![c])) by {
            assert(seq![c].last() == c);
        }
    }
    let s = dir_slots(&cms[last], sb, chains[last]);
    lemma_live_len(s);
    lemma_sector(sb, chains[last], k);
    let q = k / (sb.sector_per_cluster as int);
    if in_chain(seq![c], cluster_of(sb, sector_addr(sb, chains[last], k))) {
        assert(chains[last][q] == c);
    }
    assert(n_sectors(sb, seq![c]) * 512 >= 0) by (nonlinear_arith)
        requires
            n_sectors(sb, seq![c]) == 1 * sb.sector_per_cluster,
    ;
}

} // verus!
