use vstd::prelude::*;

use crate::cache::{lemma_splice, BlockCacheManager};
use crate::device::BlockDevice;
use crate::sblock::SuperBlock;
use crate::BLOCK_SIZE;

verus! {

/// Every cluster of `chain` lies in the data region and none appears twice.
pub open spec fn clusters_valid(sb: SuperBlock, chain: Seq<usize>) -> bool {
    &&& forall|i: int| 0 <= i < chain.len() ==> sb.valid_cluster(#[trigger] chain[i] as int)
    &&& chain.no_duplicates()
}

/// Number of sectors in `chain`.
pub open spec fn n_sectors(sb: SuperBlock, chain: Seq<usize>) -> int {
    chain.len() * sb.sector_per_cluster
}

/// Byte address of the `k`-th sector of `chain`, counting in chain order and
/// then sector order within each cluster.
pub open spec fn sector_addr(sb: SuperBlock, chain: Seq<usize>, k: int) -> int {
    chain[k / (sb.sector_per_cluster as int)] * sb.cluster_bytes() + (k % (sb.sector_per_cluster as int))
        * BLOCK_SIZE
}

/// The cluster that byte address `a` of the data region belongs to.
pub open spec fn cluster_of(sb: SuperBlock, a: int) -> int {
    a / sb.cluster_bytes()
}

/// A sector of a chain is block-aligned, in the data region, addressable,
/// and belongs to the cluster of the chain it is counted in.
pub proof fn lemma_sector(sb: SuperBlock, chain: Seq<usize>, k: int)
    requires
        sb.wf(),
        clusters_valid(sb, chain),
        0 <= k < n_sectors(sb, chain),
    ensures
        sector_addr(sb, chain, k) % 512 == 0,
        sector_addr(sb, chain, k) >= sb.data_start(),
        sector_addr(sb, chain, k) + BLOCK_SIZE <= 0x8000_0000,
        0 <= k / (sb.sector_per_cluster as int) < chain.len(),
        cluster_of(sb, sector_addr(sb, chain, k)) == chain[k / (sb.sector_per_cluster as int)],
{
    let spc = sb.sector_per_cluster as int;
    let j = k / spc;
    let s = k % spc;
    assert(0 <= j < chain.len()) by {
        vstd::arithmetic::div_mod::lemma_div_pos_is_pos(k, spc);
        vstd::arithmetic::div_mod::lemma_div_is_ordered(k, chain.len() * spc, spc);
        vstd::arithmetic::div_mod::lemma_div_multiples_vanish(chain.len() as int, spc);
        assert(chain.len() * spc == spc * chain.len()) by (nonlinear_arith);
        if j >= chain.len() {
            vstd::arithmetic::div_mod::lemma_fundamental_div_mod(k, spc);
            assert(spc * j >= spc * chain.len()) by (nonlinear_arith)
                requires
                    j >= chain.len(),
                    spc >= 1,
            ;
        }
    }
    let c = chain[j] as int;
    crate::sblock::lemma_offset_bounds(sb, c);
    assert(0 <= s < spc);
    assert(s * 512 < spc * 512);
    let a = c * (spc * 512) + s * 512;
    assert(a == sector_addr(sb, chain, k));
    vstd::arithmetic::div_mod::lemma_fundamental_div_mod_converse(a, spc * 512, c, s * 512);
    assert((c * (spc * 512)) % 512 == 0 && a % 512 == 0) by {
        assert(a == (c * spc + s) * 512) by (nonlinear_arith)
            requires
                a == c * (spc * 512) + s * 512,
        ;
        vstd::arithmetic::div_mod::lemma_mod_multiples_basic(c * spc + s, 512);
        assert(c * (spc * 512) == (c * spc) * 512) by (nonlinear_arith);
        vstd::arithmetic::div_mod::lemma_mod_multiples_basic(c * spc, 512);
    }
}

/// Distinct sectors of a chain of distinct clusters have distinct addresses.
pub proof fn lemma_sector_distinct(sb: SuperBlock, chain: Seq<usize>, k1: int, k2: int)
    requires
        sb.wf(),
        clusters_valid(sb, chain),
        0 <= k1 < n_sectors(sb, chain),
        0 <= k2 < n_sectors(sb, chain),
        k1 != k2,
    ensures
        sector_addr(sb, chain, k1) != sector_addr(sb, chain, k2),
{
    lemma_sector(sb, chain, k1);
    lemma_sector(sb, chain, k2);
    let spc = sb.sector_per_cluster as int;
    if k1 / spc == k2 / spc {
        vstd::arithmetic::div_mod::lemma_fundamental_div_mod(k1, spc);
        vstd::arithmetic::div_mod::lemma_fundamental_div_mod(k2, spc);
        assert(k1 % spc != k2 % spc);
    } else {
        assert(chain[k1 / spc] != chain[k2 / spc]);
    }
}

/// Byte address of the `k`-th sector of `chain`.
pub fn sector_of(sb: &SuperBlock, chain: &Vec<usize>, k: usize) -> (r: usize)
    requires
        sb.wf(),
        clusters_valid(*sb, chain@),
        k < n_sectors(*sb, chain@),
    ensures
        r == sector_addr(*sb, chain@, k as int),
        r % BLOCK_SIZE == 0,
        r >= sb.data_start(),
        r + BLOCK_SIZE <= 0x8000_0000,
{
    proof {
        lemma_sector(*sb, chain@, k as int);
    }
    let j = k / sb.sector_per_cluster;
    proof {
        crate::sblock::lemma_offset_bounds(*sb, chain@[j as int] as int);
    }
    sb.offset(chain[j]) + (k % sb.sector_per_cluster) * BLOCK_SIZE
}

/// A block of zero bytes.
pub open spec fn zero_block() -> Seq<u8> {
    Seq::new(BLOCK_SIZE as nat, |i: int| 0u8)
}

/// Overwrites the whole block at `addr` with `data`.
pub fn write_block<D: BlockDevice>(cm: &mut BlockCacheManager<D>, addr: usize, data: &[u8])
    requires
        old(cm).wf(),
        addr % BLOCK_SIZE == 0,
        addr + BLOCK_SIZE <= 0x8000_0000,
        data@.len() == BLOCK_SIZE,
    ensures
        final(cm).wf(),
        final(cm).block(addr as int) == data@,
        forall|a: int| a != addr ==> #[trigger] final(cm).block(a) == old(cm).block(a),
{
    cm.modify(addr, 0, data);
    proof {
        lemma_splice(old(cm).block(addr as int), 0, data@);
        assert(cm.block(addr as int) =~= data@);
    }
}

/// Overwrites every sector of cluster `c` with zeros.
pub fn zero_cluster<D: BlockDevice>(sb: &SuperBlock, cm: &mut BlockCacheManager<D>, c: usize)
    requires
        old(cm).wf(),
        sb.wf(),
        sb.valid_cluster(c as int),
    ensures
        final(cm).wf(),
        forall|a: int|
            cluster_of(*sb, a) == c && a % 512 == 0 ==> #[trigger] final(cm).block(a) == zero_block(),
        forall|a: int| cluster_of(*sb, a) != c ==> #[trigger] final(cm).block(a) == old(cm).block(a),
        forall|a: int| a % 512 != 0 ==> #[trigger] final(cm).block(a) == old(cm).block(a),
{
    let zeros: Vec<u8> = vec![0u8; BLOCK_SIZE];
    assert(zeros@ =~= zero_block());
    let base = sb.offset(c);
    let spc = sb.sector_per_cluster;
    let ghost cb = sb.cluster_bytes();
    proof {
        crate::sblock::lemma_offset_bounds(*sb, c as int);
    }
    let mut s: usize = 0;
    while s < spc
        invariant
            cm.wf(),
            sb.wf(),
            spc == sb.sector_per_cluster,
            cb == spc * 512,
            base == c * cb,
            base + cb <= 0x8000_0000,
            s <= spc,
            zeros@ == zero_block(),
            forall|a: int|
                base <= a < base + s * 512 && a % 512 == 0 ==> #[trigger] cm.block(a) == zero_block(),
            forall|a: int|
                !(base <= a < base + s * 512) ==> #[trigger] cm.block(a) == old(cm).block(a),
            forall|a: int| a % 512 != 0 ==> #[trigger] cm.block(a) == old(cm).block(a),
        decreases spc - s,
    {
        let addr = base + s * BLOCK_SIZE;
        assert(addr % 512 == 0) by {
            vstd::arithmetic::div_mod::lemma_mod_multiples_basic(c * spc + s, 512);
            assert(addr == (c * spc + s) * 512) by (nonlinear_arith)
                requires
                    addr == base + s * 512,
                    base == c * (spc * 512),
            ;
        }
        write_block(cm, addr, zeros.as_slice());
        s += 1;
    }
    proof {
        assert forall|a: int| cluster_of(*sb, a) == c && a % 512 == 0 implies #[trigger] cm.block(a)
            == zero_block() by {
            vstd::arithmetic::div_mod::lemma_fundamental_div_mod(a, cb);
            vstd::arithmetic::div_mod::lemma_mod_bound(a, cb);
            assert(a == cb * c + a % cb);
            assert(cb * c == base) by (nonlinear_arith)
                requires
                    base == c * cb,
            ;
        }
        assert forall|a: int| cluster_of(*sb, a) != c implies #[trigger] cm.block(a) == old(cm).block(
            a,
        ) by {
            if base <= a < base + cb {
                vstd::arithmetic::div_mod::lemma_fundamental_div_mod_converse(a, cb, c as int, a - base);
            }
        }
    }
}

} // verus!
