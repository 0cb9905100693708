use vstd::bytes::*;
use vstd::prelude::*;

use crate::cache::{lemma_splice, lemma_splice_outside, BlockCacheManager};
use crate::chain::{
    cluster_of, clusters_valid, lemma_sector, lemma_sector_distinct, n_sectors, sector_addr,
    sector_of, write_block, zero_block,
};
use crate::device::BlockDevice;
use crate::dir::{chain_sectors, lemma_chain_ok_same, lemma_below_data, lemma_chain_ok_frame, lemma_fat_same_below, same_below_data};
use crate::fat::{free_set, chain_ok, fat_entry, lemma_fat_layout, same_blocks, FAT_FREE};
use crate::inode::{slot_cluster, slot_size};
use crate::sblock::SuperBlock;
use crate::system::FileSystem;
use crate::BLOCK_SIZE;

verus! {

/// Why a file operation failed.
#[derive(Debug, PartialEq, Eq, Structural)]
pub enum FileError {
    /// A seek past the end of the file.
    SeekValueOverFlow,
    /// An empty buffer given to `FileEntry::read`.
    BufTooSmall,
    /// The volume has no free cluster left for the new data.
    NoSpace,
}

/// How `FileEntry::write` treats the bytes already in the file.
pub enum WriteType {
    /// The file becomes the given bytes.
    OverWritten,
    /// The given bytes are added at the end of the file.
    Append,
}

/// Byte `i` of the data stored in `chain`, counting sector by sector in
/// chain order.
pub open spec fn chain_byte<D: BlockDevice>(
    cm: &BlockCacheManager<D>,
    sb: SuperBlock,
    chain: Seq<usize>,
    i: int,
) -> u8 {
    cm.block(sector_addr(sb, chain, i / 512))[i % 512]
}

/// The first `n` bytes of the data stored in `chain`.
pub open spec fn chain_bytes<D: BlockDevice>(
    cm: &BlockCacheManager<D>,
    sb: SuperBlock,
    chain: Seq<usize>,
    n: int,
) -> Seq<u8> {
    Seq::new(n as nat, |i: int| chain_byte(cm, sb, chain, i))
}

/// Whether cluster `c` is one of `chain`'s.
pub open spec fn in_chain(chain: Seq<usize>, c: int) -> bool {
    exists|i: int| 0 <= i < chain.len() && chain[i] as int == c
}

/// Every block of a cluster outside `chain` reads the same through `a` and `b`.
pub open spec fn same_off_chain<D: BlockDevice>(
    a: &BlockCacheManager<D>,
    b: &BlockCacheManager<D>,
    sb: SuperBlock,
    chain: Seq<usize>,
) -> bool {
    forall|x: int| !in_chain(chain, cluster_of(sb, x)) ==> #[trigger] a.block(x) == b.block(x)
}

/// Where byte `i` of a chain's data lies.
proof fn lemma_byte_pos(sb: SuperBlock, chain: Seq<usize>, i: int)
    requires
        sb.wf(),
        clusters_valid(sb, chain),
        0 <= i < n_sectors(sb, chain) * 512,
    ensures
        0 <= i / 512 < n_sectors(sb, chain),
        0 <= i % 512 < 512,
        in_chain(chain, cluster_of(sb, sector_addr(sb, chain, i / 512))),
{
    lemma_sector(sb, chain, i / 512);
    let j = (i / 512) / (sb.sector_per_cluster as int);
    assert(chain[j] as int == cluster_of(sb, sector_addr(sb, chain, i / 512)));
}

/// Writes `buf` over bytes `start .. start + buf.len()` of the data stored
/// in `chain`; nothing else of the chain's data and no block outside its
/// clusters changes.
fn write_bytes<D: BlockDevice>(
    sb: &SuperBlock,
    cm: &mut BlockCacheManager<D>,
    chain: &Vec<usize>,
    start: usize,
    buf: &[u8],
)
    requires
        old(cm).wf(),
        sb.wf(),
        clusters_valid(*sb, chain@),
        start + buf@.len() <= n_sectors(*sb, chain@) * 512,
    ensures
        final(cm).wf(),
        forall|i: int|
            0 <= i < n_sectors(*sb, chain@) * 512 ==> #[trigger] chain_byte(final(cm), *sb, chain@, i)
                == if start <= i < start + buf@.len() {
                buf@[i - start]
            } else {
                chain_byte(old(cm), *sb, chain@, i)
            },
        same_off_chain(final(cm), old(cm), *sb, chain@),
{
    let _ = chain_sectors(sb, chain);
    let total = start + buf.len();
    let mut p: usize = start;
    while p < total
        invariant
            cm.wf(),
            sb.wf(),
            clusters_valid(*sb, chain@),
            total == start + buf@.len(),
            total <= n_sectors(*sb, chain@) * 512,
            start <= p <= total,
            forall|i: int|
                0 <= i < n_sectors(*sb, chain@) * 512 ==> #[trigger] chain_byte(cm, *sb, chain@, i)
                    == if start <= i < p {
                    buf@[i - start]
                } else {
                    chain_byte(old(cm), *sb, chain@, i)
                },
            same_off_chain(cm, old(cm), *sb, chain@),
        decreases total - p,
    {
        let k = p / BLOCK_SIZE;
        let o = p % BLOCK_SIZE;
        let w = if BLOCK_SIZE - o < total - p {
            BLOCK_SIZE - o
        } else {
            total - p
        };
        let addr = sector_of(sb, chain, k);
        let piece = vstd::slice::slice_subrange(buf, p - start, p - start + w);
        let ghost c1 = *cm;
        cm.modify(addr, o, piece);
        proof {
            let old_b = c1.block(addr as int);
            lemma_splice(old_b, o as int, piece@);
            lemma_sector(*sb, chain@, k as int);
            assert forall|i: int|
                0 <= i < n_sectors(*sb, chain@) * 512 implies #[trigger] chain_byte(cm, *sb, chain@, i)
                == if start <= i < p + w {
                buf@[i - start]
            } else {
                chain_byte(old(cm), *sb, chain@, i)
            } by {
                lemma_byte_pos(*sb, chain@, i);
                if i / 512 == k {
                    assert(chain_byte(cm, *sb, chain@, i) == cm.block(addr as int)[i % 512]);
                    if p <= i < p + w {
                        assert(i % 512 == o + (i - p));
                        assert(piece@[i - p] == buf@[i - start]);
                    } else {
                        assert(chain_byte(&c1, *sb, chain@, i) == c1.block(addr as int)[i % 512]);
                    }
                } else {
                    lemma_sector_distinct(*sb, chain@, i / 512, k as int);
                    assert(chain_byte(cm, *sb, chain@, i) == chain_byte(&c1, *sb, chain@, i));
                }
            }
            assert forall|x: int| !in_chain(chain@, cluster_of(*sb, x)) implies #[trigger] cm.block(x)
                == old(cm).block(x) by {
                assert(in_chain(chain@, cluster_of(*sb, addr as int))) by {
                    let j = (k as int) / (sb.sector_per_cluster as int);
                    assert(chain@[j] as int == cluster_of(*sb, addr as int));
                }
                assert(x != addr);
                assert(c1.block(x) == old(cm).block(x));
            }
        }
        p = p + w;
    }
}

/// Reads bytes `from .. to` of the data stored in `chain`.
fn read_bytes<D: BlockDevice>(
    sb: &SuperBlock,
    cm: &mut BlockCacheManager<D>,
    chain: &Vec<usize>,
    from: usize,
    to: usize,
) -> (r: Vec<u8>)
    requires
        old(cm).wf(),
        sb.wf(),
        clusters_valid(*sb, chain@),
        from <= to <= n_sectors(*sb, chain@) * 512,
    ensures
        final(cm).wf(),
        same_blocks(final(cm), old(cm)),
        r@ == chain_bytes(old(cm), *sb, chain@, to as int).subrange(from as int, to as int),
{
    let ghost want = chain_bytes(old(cm), *sb, chain@, to as int);
    let mut out: Vec<u8> = Vec::new();
    let mut p: usize = from;
    while p < to
        invariant
            cm.wf(),
            same_blocks(cm, old(cm)),
            sb.wf(),
            clusters_valid(*sb, chain@),
            from <= p <= to,
            to <= n_sectors(*sb, chain@) * 512,
            want == chain_bytes(old(cm), *sb, chain@, to as int),
            out@ == want.subrange(from as int, p as int),
        decreases to - p,
    {
        let k = p / BLOCK_SIZE;
        let o = p % BLOCK_SIZE;
        let w = if BLOCK_SIZE - o < to - p {
            BLOCK_SIZE - o
        } else {
            to - p
        };
        let addr = sector_of(sb, chain, k);
        let mut piece = cm.read(addr, o, w);
        proof {
            assert forall|i: int| p <= i < p + w implies #[trigger] want[i] == piece@[i - p] by {
                assert(i / 512 == k);
                assert(i % 512 == o + (i - p));
                assert(want[i] == chain_byte(old(cm), *sb, chain@, i));
            }
        }
        let ghost before = out@;
        out.append(&mut piece);
        proof {
            assert(out@ =~= want.subrange(from as int, p + w));
        }
        p = p + w;
    }
    out
}

/// A cluster whose FAT entry is free is in no chain.
proof fn lemma_free_not_in_chain<D: BlockDevice>(
    cm: &BlockCacheManager<D>,
    sb: SuperBlock,
    chain: Seq<usize>,
    x: int,
)
    requires
        sb.wf(),
        chain_ok(cm, sb, chain),
        fat_entry(cm, x) == FAT_FREE,
    ensures
        !in_chain(chain, x),
{
    if in_chain(chain, x) {
        let i = choose|i: int| 0 <= i < chain.len() && chain[i] as int == x;
        crate::dir::lemma_chain_in_use(cm, sb, chain, i);
    }
}

/// Writes to the sectors of a chain leave the FAT as it was.
proof fn lemma_data_keeps_fat<D: BlockDevice>(
    c1: &BlockCacheManager<D>,
    c2: &BlockCacheManager<D>,
    sb: SuperBlock,
    chain: Seq<usize>,
)
    requires
        sb.wf(),
        clusters_valid(sb, chain),
        same_off_chain(c2, c1, sb, chain),
    ensures
        same_below_data(c2, c1, sb),
        forall|x: int| 0 <= x < sb.end() ==> #[trigger] fat_entry(c2, x) == fat_entry(c1, x),
{
    assert forall|a: int| a < sb.data_start() implies #[trigger] c2.block(a) == c1.block(a) by {
        lemma_below_data(sb, a);
        if in_chain(chain, cluster_of(sb, a)) {
            let i = choose|i: int| 0 <= i < chain.len() && chain[i] as int == cluster_of(sb, a);
            assert(sb.valid_cluster(chain[i] as int));
        }
    }
    lemma_fat_same_below(c1, c2, sb);
}

/// A file whose chain's FAT entries and sectors read as before keeps its
/// bytes and its chain.
proof fn lemma_unchanged_file<D: BlockDevice>(
    c0: &BlockCacheManager<D>,
    c1: &BlockCacheManager<D>,
    sb: SuperBlock,
    chain: Seq<usize>,
    size: int,
    pc: int,
)
    requires
        sb.wf(),
        chain_ok(c0, sb, chain),
        0 <= size <= n_sectors(sb, chain) * 512,
        0 <= pc < sb.end(),
        forall|c: int| 0 <= c < crate::fat::MAX_CLUSTERS ==> #[trigger] fat_entry(c1, c) == fat_entry(c0, c),
        crate::fat::same_outside_fat(c1, c0, sb),
    ensures
        chain_ok(c1, sb, chain),
        fat_entry(c1, pc) == fat_entry(c0, pc),
        chain_bytes(c1, sb, chain, size) == chain_bytes(c0, sb, chain, size),
{
    lemma_fat_layout(sb, pc, 0);
    assert forall|i: int| 0 <= i < chain.len() implies #[trigger] fat_entry(c1, chain[i] as int) == fat_entry(c0, chain[i] as int) by {
        lemma_fat_layout(sb, chain[i] as int, 0);
    }
    lemma_chain_ok_frame(c0, c1, sb, chain);
    assert forall|i: int| 0 <= i < size implies #[trigger] chain_byte(c1, sb, chain, i) == chain_byte(c0, sb, chain, i) by {
        lemma_byte_pos(sb, chain, i);
        lemma_sector(sb, chain, i / 512);
    }
    assert(chain_bytes(c1, sb, chain, size) =~= chain_bytes(c0, sb, chain, size));
}

/// A whole number of clusters' worth of bytes takes exactly that many clusters.
proof fn lemma_needed_exact(m: int, cb: int)
    requires
        m >= 1,
        cb > 0,
    ensures
        crate::fat::clusters_needed(m * cb, cb) == m,
{
    vstd::arithmetic::div_mod::lemma_div_multiples_vanish(m, cb);
    vstd::arithmetic::div_mod::lemma_mod_multiples_basic(m, cb);
    assert(m * cb == cb * m) by (nonlinear_arith);
    assert(m * cb > 0) by (nonlinear_arith)
        requires
            m >= 1,
            cb > 0,
    ;
}

/// Linking a chain of fresh clusters after the last cluster of a chain gives
/// one chain of both.
proof fn lemma_extend_chain<D: BlockDevice>(
    c0: &BlockCacheManager<D>,
    c1: &BlockCacheManager<D>,
    sb: SuperBlock,
    chain: Seq<usize>,
    more: Seq<usize>,
)
    requires
        sb.wf(),
        chain_ok(c0, sb, chain),
        chain_ok(c1, sb, more),
        fat_entry(c1, chain.last() as int) == more[0],
        forall|i: int| 0 <= i < more.len() ==> #[trigger] fat_entry(c0, more[i] as int) == FAT_FREE,
        forall|c: int|
            0 <= c < crate::fat::MAX_CLUSTERS && c != chain.last() && !more.contains(c as usize)
                ==> #[trigger] fat_entry(c1, c) == fat_entry(c0, c),
    ensures
        chain_ok(c1, sb, chain + more),
        forall|i: int| 0 <= i < more.len() ==> !in_chain(chain, #[trigger] more[i] as int),
{
    let all = chain + more;
    assert forall|i: int| 0 <= i < more.len() implies !in_chain(chain, #[trigger] more[i] as int) by {
        lemma_free_not_in_chain(c0, sb, chain, more[i] as int);
    }
    assert forall|i: int| 0 <= i < all.len() - 1 implies #[trigger] fat_entry(c1, all[i] as int) == all[i + 1] by {
        if i < chain.len() - 1 {
            assert(all[i] == chain[i]);
            crate::dir::lemma_chain_in_use(c0, sb, chain, i);
            lemma_fat_layout(sb, chain[i] as int, 0);
            assert(!more.contains(chain[i])) by {
                if more.contains(chain[i]) {
                    let j = choose|j: int| 0 <= j < more.len() && more[j] == chain[i];
                    assert(!in_chain(chain, more[j] as int));
                }
            }
            assert(chain[i] != chain.last());
        } else if i == chain.len() - 1 {
            assert(all[i] == chain.last());
        } else {
            assert(all[i] == more[i - chain.len()]);
        }
    }
    assert forall|i: int| 0 <= i < all.len() implies sb.valid_cluster(#[trigger] all[i] as int) by {
        if i < chain.len() {
            assert(all[i] == chain[i]);
        } else {
            assert(all[i] == more[i - chain.len()]);
        }
    }
    assert(all.no_duplicates()) by {
        assert forall|i: int, j: int| 0 <= i < all.len() && 0 <= j < all.len() && i != j implies all[i] != all[j] by {
            if i < chain.len() && j < chain.len() {
            } else if i >= chain.len() && j >= chain.len() {
                assert(more[i - chain.len()] != more[j - chain.len()]);
            } else if i < chain.len() {
                assert(!in_chain(chain, more[j - chain.len()] as int));
            } else {
                assert(!in_chain(chain, more[i - chain.len()] as int));
            }
        }
    }
    assert(all.last() == more.last());
}

/// Whether cluster `c` is one of `chain`'s.
pub fn chain_has(chain: &Vec<usize>, c: usize) -> (r: bool)
    ensures
        r == in_chain(chain@, c as int),
{
    let mut i: usize = 0;
    while i < chain.len()
        invariant
            i <= chain@.len(),
            forall|j: int| 0 <= j < i ==> chain@[j] != c,
        decreases chain@.len() - i,
    {
        if chain[i] == c {
            return true;
        }
        i += 1;
    }
    false
}

/// How many more clusters than the file has a write of `len` bytes in mode
/// `wt` takes: beyond the file's own (freed first) when overwriting, past
/// the current chain when appending.
pub open spec fn write_needs(f: FileEntry, sb: SuperBlock, len: int, wt: WriteType) -> int {
    match wt {
        WriteType::OverWritten => crate::fat::clusters_needed(len, sb.cluster_bytes())
            - f.chain().len(),
        WriteType::Append => crate::fat::clusters_needed(f.size_spec() + len, sb.cluster_bytes())
            - f.chain().len(),
    }
}

/// An open file: its cluster chain, its size, the read cursor, and the
/// address of the sector holding its directory entry.
pub struct FileEntry {
    pub(crate) clusters: Vec<usize>,
    pub(crate) size: usize,
    pub(crate) seek_at: usize,
    pub(crate) addr: usize,
}

impl FileEntry {
    /// The file's clusters, in chain order.
    pub open(crate) spec fn chain(&self) -> Seq<usize> {
        self.clusters@
    }

    /// The file's size in bytes.
    pub open(crate) spec fn size_spec(&self) -> int {
        self.size as int
    }

    /// The read cursor.
    pub open(crate) spec fn cursor(&self) -> int {
        self.seek_at as int
    }

    /// Address of the sector holding the file's directory entry.
    pub open(crate) spec fn entry_addr(&self) -> int {
        self.addr as int
    }

    /// The file's chain is a chain of `fs` large enough for its bytes, the
    /// cursor lies within the file, and the entry's sector lies in another
    /// cluster that is in use.
    pub open(crate) spec fn wf_in<D: BlockDevice>(&self, fs: &FileSystem<D>) -> bool {
        let sb = fs.sb();
        &&& fs.wf()
        &&& chain_ok(&fs.cm(), sb, self.chain())
        &&& self.size <= n_sectors(sb, self.chain()) * 512
        &&& self.size <= u32::MAX
        &&& self.seek_at <= self.size
        &&& self.addr % 512 == 0
        &&& self.addr >= sb.data_start()
        &&& self.addr + BLOCK_SIZE <= 0x8000_0000
        &&& sb.valid_cluster(cluster_of(sb, self.addr as int))
        &&& fat_entry(&fs.cm(), cluster_of(sb, self.addr as int)) != FAT_FREE
        &&& !in_chain(self.chain(), cluster_of(sb, self.addr as int))
    }

    /// The file's bytes as `fs` stores them.
    pub open(crate) spec fn content<D: BlockDevice>(&self, fs: &FileSystem<D>) -> Seq<u8> {
        chain_bytes(&fs.cm(), fs.sb(), self.chain(), self.size as int)
    }

    /// The size in bytes.
    pub fn size(&self) -> (r: usize)
        ensures
            r == self.size_spec(),
    {
        self.size
    }

    /// The first cluster of the file's chain.
    pub fn first_cluster(&self) -> (r: usize)
        requires
            self.chain().len() > 0,
        ensures
            r == self.chain()[0],
    {
        self.clusters[0]
    }

    /// Number of clusters in the file's chain.
    pub fn cluster_count(&self) -> (r: usize)
        ensures
            r == self.chain().len(),
    {
        self.clusters.len()
    }

    /// Moves the read cursor to `at`; refused, with the cursor left where it
    /// was, when `at` lies past the end of the file.
    pub fn seek(&mut self, at: usize) -> (r: Result<(), FileError>)
        ensures
            at > old(self).size_spec() <==> r == Err::<(), FileError>(FileError::SeekValueOverFlow),
            r is Ok <==> at <= old(self).size_spec(),
            r is Ok ==> final(self).cursor() == at,
            r is Err ==> final(self).cursor() == old(self).cursor(),
            final(self).chain() == old(self).chain(),
            final(self).size_spec() == old(self).size_spec(),
            final(self).entry_addr() == old(self).entry_addr(),
    {
        if at > self.size {
            return Err(FileError::SeekValueOverFlow);
        }
        self.seek_at = at;
        Ok(())
    }

    /// Replaces the contents of `buf` with the bytes from the cursor to the
    /// end of the file; the cursor stays. Returns how many bytes that is.
    pub fn read_to_vec<D: BlockDevice>(&self, fs: &mut FileSystem<D>, buf: &mut Vec<u8>) -> (r:
        Result<usize, FileError>)
        requires
            self.wf_in(old(fs)),
        ensures
            final(fs).wf(),
            final(fs).sb() == old(fs).sb(),
            same_blocks(&final(fs).cm(), &old(fs).cm()),
            final(buf)@ == self.content(old(fs)).subrange(self.cursor(), self.size_spec()),
            r == Ok::<usize, FileError>((self.size_spec() - self.cursor()) as usize),
    {
        let sb = fs.sblock;
        let data = read_bytes(&sb, &mut fs.cache, &self.clusters, self.seek_at, self.size);
        buf.clear();
        let mut data = data;
        buf.append(&mut data);
        proof {
            assert(buf@ =~= self.content(old(fs)).subrange(self.cursor(), self.size_spec()));
        }
        Ok(self.size - self.seek_at)
    }

    /// Copies bytes from the cursor on into `buf`, as many as fit and the
    /// file has, and moves the cursor past them. Returns how many; an empty
    /// `buf` is refused (use `read_to_vec` to read into a growing buffer).
    pub fn read<D: BlockDevice>(&mut self, fs: &mut FileSystem<D>, buf: &mut [u8]) -> (r: Result<
        usize,
        FileError,
    >)
        requires
            old(self).wf_in(old(fs)),
        ensures
            final(fs).wf(),
            final(fs).sb() == old(fs).sb(),
            same_blocks(&final(fs).cm(), &old(fs).cm()),
            old(buf)@.len() == 0 <==> r == Err::<usize, FileError>(FileError::BufTooSmall),
            old(buf)@.len() == 0 ==> final(buf)@ == old(buf)@ && final(self).cursor() == old(self).cursor(),
            old(buf)@.len() > 0 ==> r is Ok,
            r is Ok ==> ({
                let n = r.unwrap() as int;
                let s = old(self).cursor();
                &&& n == if old(buf)@.len() < old(self).size_spec() - s {
                    old(buf)@.len() as int
                } else {
                    old(self).size_spec() - s
                }
                &&& final(buf)@.len() == old(buf)@.len()
                &&& final(buf)@.subrange(0, n) == old(self).content(old(fs)).subrange(s, s + n)
                &&& final(buf)@.subrange(n, old(buf)@.len() as int) == old(buf)@.subrange(
                    n,
                    old(buf)@.len() as int,
                )
                &&& final(self).cursor() == s + n
            }),
            final(self).chain() == old(self).chain(),
            final(self).size_spec() == old(self).size_spec(),
            final(self).entry_addr() == old(self).entry_addr(),
    {
        if buf.len() == 0 {
            return Err(FileError::BufTooSmall);
        }
        let sb = fs.sblock;
        let left = self.size - self.seek_at;
        let n = if buf.len() < left {
            buf.len()
        } else {
            left
        };
        let data = read_bytes(&sb, &mut fs.cache, &self.clusters, self.seek_at, self.seek_at + n);
        let mut i: usize = 0;
        while i < n
            invariant
                i <= n,
                n <= buf@.len(),
                buf@.len() == old(buf)@.len(),
                data@.len() == n,
                forall|j: int| 0 <= j < i ==> buf@[j] == data@[j],
                forall|j: int| n <= j < buf@.len() ==> buf@[j] == old(buf)@[j],
            decreases n - i,
        {
            buf[i] = data[i];
            i += 1;
        }
        proof {
            let s = self.seek_at as int;
            let content = self.content(old(fs));
            assert forall|j: int| 0 <= j < n implies buf@[j] == content[s + j] by {
                assert(data@[j] == chain_bytes(&old(fs).cm(), sb, self.clusters@, s + n)[s + j]);
            }
            assert(buf@.subrange(0, n as int) =~= content.subrange(s, s + n));
            assert(buf@.subrange(n as int, buf@.len() as int) =~= old(buf)@.subrange(
                n as int,
                old(buf)@.len() as int,
            ));
        }
        self.seek_at = self.seek_at + n;
        Ok(n)
    }

    /// Overwrites every sector of the file's chain with zeros.
    pub(crate) fn clean_data<D: BlockDevice>(&self, fs: &mut FileSystem<D>)
        requires
            old(fs).wf(),
            clusters_valid(old(fs).sb(), self.chain()),
        ensures
            final(fs).wf(),
            final(fs).sb() == old(fs).sb(),
            final(fs).fat == old(fs).fat,
            forall|k: int|
                0 <= k < n_sectors(old(fs).sb(), self.chain()) ==> #[trigger] final(fs).cm().block(
                    sector_addr(old(fs).sb(), self.chain(), k),
                ) == zero_block(),
            same_off_chain(&final(fs).cm(), &old(fs).cm(), old(fs).sb(), self.chain()),
            forall|a: int|
                #[trigger] final(fs).cm().block(a) == old(fs).cm().block(a) || (a >= old(fs).sb().data_start()
                    && final(fs).cm().block(a) == zero_block()),
    {
        let sb = fs.sblock;
        let n = chain_sectors(&sb, &self.clusters);
        let zeros: Vec<u8> = vec![0u8; BLOCK_SIZE];
        assert(zeros@ =~= zero_block());
        let mut k: usize = 0;
        while k < n
            invariant
                fs.wf(),
                fs.sblock == sb,
                fs.fat == old(fs).fat,
                sb == old(fs).sb(),
                clusters_valid(sb, self.clusters@),
                n == n_sectors(sb, self.clusters@),
                k <= n,
                zeros@ == zero_block(),
                forall|j: int| 0 <= j < k ==> #[trigger] fs.cm().block(sector_addr(sb, self.clusters@, j)) == zero_block(),
                same_off_chain(&fs.cm(), &old(fs).cm(), sb, self.clusters@),
                forall|a: int|
                    #[trigger] fs.cm().block(a) == old(fs).cm().block(a) || (a >= sb.data_start()
                        && fs.cm().block(a) == zero_block()),
            decreases n - k,
        {
            let addr = sector_of(&sb, &self.clusters, k);
            let ghost c1 = fs.cache;
            write_block(&mut fs.cache, addr, zeros.as_slice());
            proof {
                lemma_sector(sb, self.clusters@, k as int);
                assert forall|j: int| 0 <= j < k + 1 implies #[trigger] fs.cm().block(sector_addr(sb, self.clusters@, j)) == zero_block() by {
                    if j < k {
                        lemma_sector_distinct(sb, self.clusters@, j, k as int);
                    }
                }
                assert(in_chain(self.clusters@, cluster_of(sb, addr as int))) by {
                    let j = (k as int) / (sb.sector_per_cluster as int);
                    assert(self.clusters@[j] as int == cluster_of(sb, addr as int));
                }
                assert forall|x: int| !in_chain(self.clusters@, cluster_of(sb, x)) implies #[trigger] fs.cm().block(x)
                    == old(fs).cm().block(x) by {
                    assert(c1.block(x) == old(fs).cm().block(x));
                }
                assert forall|a: int|
                    #[trigger] fs.cm().block(a) == old(fs).cm().block(a) || (a >= sb.data_start()
                        && fs.cm().block(a) == zero_block()) by {
                    if a != addr {
                        assert(c1.block(a) == old(fs).cm().block(a) || (a >= sb.data_start() && c1.block(a) == zero_block()));
                    }
                }
            }
            k += 1;
        }
    }

    /// Stores the file's size and first cluster in its directory entry.
    fn update<D: BlockDevice>(&self, fs: &mut FileSystem<D>)
        requires
            old(fs).wf(),
            self.addr % 512 == 0,
            self.addr + BLOCK_SIZE <= 0x8000_0000,
            self.clusters@.len() > 0,
            self.size <= u32::MAX,
            self.clusters@[0] <= u32::MAX,
        ensures
            final(fs).wf(),
            final(fs).sb() == old(fs).sb(),
            final(fs).fat == old(fs).fat,
            final(fs).cm().block(self.addr as int).len() == BLOCK_SIZE,
            slot_size(final(fs).cm().block(self.addr as int)) == self.size,
            slot_cluster(final(fs).cm().block(self.addr as int)) == self.clusters@[0],
            forall|o: int|
                0 <= o < BLOCK_SIZE && !(22 <= o < 26) && !(52 <= o < 56) ==> #[trigger] final(fs).cm().block(self.addr as int)[o] == old(fs).cm().block(self.addr as int)[o],
            forall|a: int| a != self.addr ==> #[trigger] final(fs).cm().block(a) == old(fs).cm().block(a),
    {
        let size_bytes = u32_to_le_bytes(self.size as u32);
        let cluster_bytes = u32_to_le_bytes(self.clusters[0] as u32);
        fs.cache.modify(self.addr, 22, size_bytes.as_slice());
        let ghost c1 = fs.cache;
        fs.cache.modify(self.addr, 52, cluster_bytes.as_slice());
        proof {
            lemma_auto_spec_u32_to_from_le_bytes();
            let b0 = old(fs).cm().block(self.addr as int);
            let b1 = c1.block(self.addr as int);
            lemma_splice(b0, 22, size_bytes@);
            lemma_splice(b1, 52, cluster_bytes@);
            lemma_splice_outside(b1, 52, cluster_bytes@, 22, 4);
        }
    }

    /// Writes `buf` to the file: as its whole new contents (`OverWritten`),
    /// or after its current bytes (`Append`); then stores the new size and
    /// first cluster in the file's directory entry. An empty `buf` changes
    /// nothing, in either mode.
    ///
    /// Overwriting zeroes and frees the old chain first, then takes a new
    /// one, and moves the cursor back to the new end if it lay past it. When
    /// even the freed clusters are too few, the file is left empty (one
    /// cluster, size 0) and `NoSpace` is returned. A failed append changes
    /// nothing the file holds.
    pub fn write<D: BlockDevice>(
        &mut self,
        fs: &mut FileSystem<D>,
        buf: &[u8],
        write_type: WriteType,
    ) -> (r: Result<(), FileError>)
        requires
            old(self).wf_in(old(fs)),
            write_type is OverWritten ==> buf@.len() <= u32::MAX,
            write_type is Append ==> old(self).size_spec() + buf@.len() <= u32::MAX,
        ensures
            final(self).wf_in(final(fs)),
            final(fs).sb() == old(fs).sb(),
            final(self).entry_addr() == old(self).entry_addr(),
            final(self).cursor() == if write_type is OverWritten && buf@.len() > 0 && r is Err {
                0
            } else if write_type is OverWritten && buf@.len() > 0 && old(self).cursor() > buf@.len() {
                buf@.len() as int
            } else {
                old(self).cursor()
            },
            r is Err ==> r == Err::<(), FileError>(FileError::NoSpace),
            buf@.len() == 0 ==> r is Ok && final(self).chain() == old(self).chain()
                && final(self).size_spec() == old(self).size_spec() && same_blocks(
                &final(fs).cm(),
                &old(fs).cm(),
            ),
            r is Err ==> crate::fat::free_set(&old(fs).cm(), old(fs).sb()).len() < write_needs(
                *old(self),
                old(fs).sb(),
                buf@.len() as int,
                write_type,
            ),
            write_type is Append && (r is Err || buf@.len() == 0) ==> final(self).chain() == old(self).chain()
                && final(self).size_spec() == old(self).size_spec() && final(self).content(final(fs))
                == old(self).content(old(fs)),
            r is Ok && write_type is OverWritten && buf@.len() > 0 ==> final(self).size_spec()
                == buf@.len() && final(self).content(final(fs)) == buf@,
            r is Ok && write_type is Append ==> final(self).size_spec() == old(self).size_spec()
                + buf@.len() && final(self).content(final(fs)) == old(self).content(old(fs)) + buf@,
            r is Err && write_type is OverWritten ==> final(self).size_spec() == 0
                && final(self).chain().len() == 1,
            r is Ok && write_type is OverWritten && buf@.len() > 0 ==> final(self).chain().len()
                == crate::fat::clusters_needed(buf@.len() as int, old(fs).sb().cluster_bytes()),
            write_type is OverWritten && buf@.len() > 0 ==> {
                &&& forall|i: int|
                    0 <= i < old(self).chain().len() && !in_chain(
                        final(self).chain(),
                        old(self).chain()[i] as int,
                    ) ==> #[trigger] fat_entry(&final(fs).cm(), old(self).chain()[i] as int)
                        == FAT_FREE
                &&& forall|k: int|
                    0 <= k < n_sectors(old(fs).sb(), old(self).chain()) && !in_chain(
                        final(self).chain(),
                        old(self).chain()[k / (old(fs).sb().sector_per_cluster as int)] as int,
                    ) ==> #[trigger] final(fs).cm().block(
                        sector_addr(old(fs).sb(), old(self).chain(), k),
                    ) == zero_block()
            },
            r is Ok && write_type is Append && buf@.len() > 0 ==> {
                &&& final(self).chain().subrange(0, old(self).chain().len() as int) == old(self).chain()
                &&& final(self).chain().len() == if crate::fat::clusters_needed(
                    old(self).size_spec() + buf@.len(),
                    old(fs).sb().cluster_bytes(),
                ) > old(self).chain().len() {
                    crate::fat::clusters_needed(
                        old(self).size_spec() + buf@.len(),
                        old(fs).sb().cluster_bytes(),
                    )
                } else {
                    old(self).chain().len() as int
                }
            },
            forall|o: int|
                0 <= o < BLOCK_SIZE && !(22 <= o < 26) && !(52 <= o < 56) ==> #[trigger] final(fs).cm().block(old(self).entry_addr())[o] == old(fs).cm().block(old(self).entry_addr())[o],
            buf@.len() > 0 && (write_type is OverWritten || r is Ok) ==> slot_size(final(fs).cm().block(old(self).entry_addr()))
                == final(self).size_spec() && slot_cluster(final(fs).cm().block(old(self).entry_addr()))
                == final(self).chain()[0],
            forall|x: int|
                0 <= x < old(fs).sb().end() && fat_entry(&old(fs).cm(), x) != FAT_FREE && !in_chain(
                    old(self).chain(),
                    x,
                ) ==> #[trigger] fat_entry(&final(fs).cm(), x) == fat_entry(&old(fs).cm(), x),
            forall|a: int|
                a != old(self).entry_addr() && !(512 <= a < old(fs).sb().data_start()) && !in_chain(
                    old(self).chain(),
                    cluster_of(old(fs).sb(), a),
                ) && !(old(fs).sb().valid_cluster(cluster_of(old(fs).sb(), a)) && fat_entry(
                    &old(fs).cm(),
                    cluster_of(old(fs).sb(), a),
                ) == FAT_FREE) ==> #[trigger] final(fs).cm().block(a) == old(fs).cm().block(a),
    {
        if buf.len() == 0 {
            return Ok(());
        }
        let sb = fs.sblock;
        let len = buf.len();
        let ghost c0 = fs.cache;
        let ghost chain0 = self.clusters@;
        let ghost pc = cluster_of(sb, self.addr as int);
        proof {
            crate::fat::lemma_chain_len(sb, chain0);
        }
        match write_type {
            WriteType::OverWritten => {
                proof {
                    lemma_fat_layout(sb, pc, 0);
                }
                self.clean_data(fs);
                let ghost c1 = fs.cache;
                proof {
                    lemma_data_keeps_fat(&c0, &c1, sb, chain0);
                }
                crate::fat::free_chain(&mut fs.fat, &mut fs.cache, &self.clusters);
                let ghost c2 = fs.cache;
                proof {
                    // what the FAT reads now: the old chain free, everything else as before
                    assert forall|x: int| 0 <= x < sb.end() && !in_chain(chain0, x) implies #[trigger] fat_entry(&c2, x) == fat_entry(&c0, x) by {
                        if chain0.contains(x as usize) {
                            let i = choose|i: int| 0 <= i < chain0.len() && chain0[i] == x as usize;
                            assert(chain0[i] as int == x);
                        }
                        assert(fat_entry(&c1, x) == fat_entry(&c0, x));
                    }
                    assert forall|x: int| 0 <= x < sb.end() && fat_entry(&c2, x) == FAT_FREE implies in_chain(chain0, x)
                        || #[trigger] fat_entry(&c0, x) == FAT_FREE by {
                    }
                    assert forall|i: int| 0 <= i < chain0.len() implies #[trigger] free_set(&c2, sb).contains(chain0[i] as int) by {
                        assert(fat_entry(&c2, chain0[i] as int) == FAT_FREE);
                    }
                    assert(fat_entry(&c2, pc) == fat_entry(&c0, pc));
                    crate::fat::lemma_clusters_needed(len as int, sb.cluster_bytes());
                    crate::fat::lemma_clusters_needed(0, sb.cluster_bytes());
                }
                let (taken, ok): (Vec<usize>, bool) = match crate::fat::alloc_clusters(&mut fs.fat, &mut fs.cache, len) {
                    Some(fresh) => {
                        proof {
                            assert forall|i: int| 0 <= i < fresh@.len() implies #[trigger] fat_entry(&c2, fresh@[i] as int) == FAT_FREE by {}
                        }
                        (fresh, true)
                    },
                    None => {
                        let ghost c3 = fs.cache;
                        proof {
                            // the old chain's clusters and the ones free before were not enough
                            let f0 = free_set(&c0, sb);
                            let ints = chain0.map_values(|x: usize| x as int);
                            let own = ints.to_set();
                            crate::fat::lemma_free_set_finite(&c0, sb);
                            crate::fat::lemma_free_set_finite(&c2, sb);
                            assert(ints.no_duplicates()) by {
                                assert forall|i: int, j: int| 0 <= i < ints.len() && 0 <= j < ints.len() && i != j
                                    implies ints[i] != ints[j] by {
                                    assert(chain0[i] != chain0[j]);
                                }
                            }
                            ints.unique_seq_to_set();
                            assert(f0.disjoint(own)) by {
                                assert forall|x: int| f0.contains(x) implies !own.contains(x) by {
                                    if own.contains(x) {
                                        let i = choose|i: int| 0 <= i < ints.len() && ints[i] == x;
                                        crate::dir::lemma_chain_in_use(&c0, sb, chain0, i);
                                    }
                                }
                            }
                            vstd::set_lib::lemma_set_disjoint_lens(f0, own);
                            assert((f0 + own).subset_of(free_set(&c2, sb))) by {
                                assert forall|x: int| (f0 + own).contains(x) implies free_set(&c2, sb).contains(x) by {
                                    if own.contains(x) {
                                        let i = choose|i: int| 0 <= i < ints.len() && ints[i] == x;
                                        assert(free_set(&c2, sb).contains(chain0[i] as int));
                                    } else {
                                        lemma_free_not_in_chain(&c0, sb, chain0, x);
                                    }
                                }
                            }
                            vstd::set_lib::lemma_len_subset(f0 + own, free_set(&c2, sb));
                            // the failed attempt left the FAT as it was, so one cluster is there
                            assert forall|x: int| 0 <= x < sb.end() implies #[trigger] fat_entry(&c3, x) == fat_entry(&c2, x) by {
                                lemma_fat_layout(sb, x, 0);
                            }
                            assert(free_set(&c3, sb).contains(chain0[0] as int));
                            crate::fat::lemma_free_nonempty(&c3, sb, chain0[0] as int);
                        }
                        match crate::fat::alloc_clusters(&mut fs.fat, &mut fs.cache, 0) {
                            Some(one) => {
                                proof {
                                    assert forall|i: int| 0 <= i < one@.len() implies #[trigger] fat_entry(&c2, one@[i] as int) == FAT_FREE by {
                                        lemma_fat_layout(sb, one@[i] as int, 0);
                                        assert(fat_entry(&c3, one@[i] as int) == FAT_FREE);
                                    }
                                }
                                (one, false)
                            },
                            None => {
                                proof {
                                    assert(false);
                                }
                                return Err(FileError::NoSpace);
                            },
                        }
                    },
                };
                let ghost c3 = fs.cache;
                let n = if ok { len } else { 0 };
                proof {
                    crate::fat::lemma_chain_len(sb, taken@);
                    crate::fat::lemma_clusters_needed(n as int, sb.cluster_bytes());
                    assert(n_sectors(sb, taken@) * 512 == taken@.len() * sb.cluster_bytes()) by (nonlinear_arith)
                        requires
                            n_sectors(sb, taken@) == taken@.len() * sb.sector_per_cluster,
                            sb.cluster_bytes() == sb.sector_per_cluster * 512,
                    ;
                    // the taken clusters were free after the old chain was freed
                    assert forall|x: int| in_chain(taken@, x) implies x != pc && sb.valid_cluster(x) && (in_chain(chain0, x)
                        || fat_entry(&c0, x) == FAT_FREE) by {
                        let i = choose|i: int| 0 <= i < taken@.len() && taken@[i] as int == x;
                        assert(fat_entry(&c2, taken@[i] as int) == FAT_FREE);
                        lemma_fat_layout(sb, x, 0);
                    }
                }
                let data: &[u8] = if ok { buf } else { &[] };
                proof {
                    if !ok {
                        assert(data@.len() == 0);
                    }
                }
                write_bytes(&sb, &mut fs.cache, &taken, 0, data);
                let ghost c4 = fs.cache;
                proof {
                    lemma_data_keeps_fat(&c3, &c4, sb, taken@);
                }
                self.clusters = taken;
                self.size = n;
                if !ok {
                    self.seek_at = 0;
                } else if self.seek_at > len {
                    self.seek_at = len;
                }
                proof {
                    lemma_fat_layout(sb, self.clusters@[0] as int, 0);
                }
                self.update(fs);
                proof {
                    let c5 = fs.cache;
                    let fresh = self.clusters@;
                    assert(same_below_data(&c5, &c4, sb));
                    lemma_fat_same_below(&c4, &c5, sb);
                    // FAT entries that were in use, outside the old chain
                    assert forall|x: int| 0 <= x < sb.end() && fat_entry(&c0, x) != FAT_FREE && !in_chain(chain0, x)
                        implies #[trigger] fat_entry(&c5, x) == fat_entry(&c0, x) by {
                        assert(!in_chain(fresh, x));
                        assert(!fresh.contains(x as usize)) by {
                            if fresh.contains(x as usize) {
                                let i = choose|i: int| 0 <= i < fresh.len() && fresh[i] == x as usize;
                                assert(fresh[i] as int == x);
                            }
                        }
                        assert(fat_entry(&c2, x) == fat_entry(&c0, x));
                    }
                    // the new chain is intact
                    assert forall|i: int| 0 <= i < fresh.len() implies #[trigger] fat_entry(&c5, fresh[i] as int) == fat_entry(&c3, fresh[i] as int) by {
                        lemma_fat_layout(sb, fresh[i] as int, 0);
                    }
                    lemma_chain_ok_frame(&c3, &c5, sb, fresh);
                    // the entry's cluster is still in use
                    assert(!in_chain(fresh, pc));
                    assert(!fresh.contains(pc as usize)) by {
                        if fresh.contains(pc as usize) {
                            let i = choose|i: int| 0 <= i < fresh.len() && fresh[i] == pc as usize;
                            assert(fresh[i] as int == pc);
                        }
                    }
                    assert(fat_entry(&c5, pc) == fat_entry(&c0, pc));
                    // the bytes
                    assert forall|i: int| 0 <= i < n implies #[trigger] chain_byte(&c5, sb, fresh, i) == buf@[i] by {
                        lemma_byte_pos(sb, fresh, i);
                        lemma_sector(sb, fresh, i / 512);
                        let a = sector_addr(sb, fresh, i / 512);
                        assert(in_chain(fresh, cluster_of(sb, a)));
                        assert(cluster_of(sb, a) != pc);
                        assert(a != self.addr);
                        assert(chain_byte(&c4, sb, fresh, i) == data@[i]);
                    }
                    if ok {
                        assert(self.content(fs) =~= buf@);
                    }
                    assert(self.wf_in(fs));
                    // the old chain: freed and zeroed where not taken again
                    assert forall|i: int| 0 <= i < chain0.len() && !in_chain(fresh, chain0[i] as int) implies #[trigger] fat_entry(&c5, chain0[i] as int) == FAT_FREE by {
                        lemma_fat_layout(sb, chain0[i] as int, 0);
                        assert(!fresh.contains(chain0[i])) by {
                            if fresh.contains(chain0[i]) {
                                let j = choose|j: int| 0 <= j < fresh.len() && fresh[j] == chain0[i];
                                assert(fresh[j] as int == chain0[i] as int);
                            }
                        }
                        assert(fat_entry(&c2, chain0[i] as int) == FAT_FREE);
                    }
                    assert forall|k: int| 0 <= k < n_sectors(sb, chain0) && !in_chain(fresh, chain0[k / (sb.sector_per_cluster as int)] as int)
                        implies #[trigger] c5.block(sector_addr(sb, chain0, k)) == zero_block() by {
                        lemma_sector(sb, chain0, k);
                        let a = sector_addr(sb, chain0, k);
                        assert(in_chain(chain0, cluster_of(sb, a)));
                        assert(a != self.addr);
                        assert(c1.block(a) == zero_block());
                    }
                    // other blocks
                    assert forall|a: int|
                        a != self.addr && !(512 <= a < sb.data_start()) && !in_chain(chain0, cluster_of(sb, a))
                            && !(sb.valid_cluster(cluster_of(sb, a)) && fat_entry(&c0, cluster_of(sb, a)) == FAT_FREE)
                        implies #[trigger] c5.block(a) == c0.block(a) by {
                        assert(!in_chain(fresh, cluster_of(sb, a)));
                        assert(c4.block(a) == c3.block(a));
                        assert(c1.block(a) == c0.block(a));
                    }
                }
                if ok {
                    Ok(())
                } else {
                    Err(FileError::NoSpace)
                }
            },
            WriteType::Append => {
                let total = self.size + len;
                let cb = sb.sector_per_cluster * BLOCK_SIZE;
                let need = crate::fat::num_clusters(total, cb);
                let have = self.clusters.len();
                let ghost mut c1 = fs.cache;
                if need > have {
                    if need - have > sb.fat_end() {
                        proof {
                            assert(same_blocks(&fs.cache, &c0));
                            lemma_chain_ok_same(&c0, &fs.cache, sb, chain0);
                            assert(self.content(fs) =~= self.content(old(fs)));
                            crate::fat::lemma_free_set_finite(&c0, sb);
                        }
                        return Err(FileError::NoSpace);
                    }
                    let tail = self.clusters[have - 1];
                    proof {
                        assert((need - have) * cb <= sb.end() * sb.cluster_bytes()) by (nonlinear_arith)
                            requires
                                need - have <= sb.end(),
                                cb == sb.cluster_bytes(),
                                cb >= 0,
                        ;
                        crate::sblock::lemma_offset_bounds(sb, 2);
                        lemma_needed_exact((need - have) as int, cb as int);
                        assert(chain0[have - 1] == chain0.last());
                    }
                    let more_bytes = (need - have) * cb;
                    match crate::fat::increase_cluster(&mut fs.fat, &mut fs.cache, tail, more_bytes) {
                        None => {
                            proof {
                                lemma_unchanged_file(&c0, &fs.cache, sb, self.clusters@, self.size as int, pc);
                            }
                            return Err(FileError::NoSpace);
                        },
                        Some(more) => {
                            proof {
                                c1 = fs.cache;
                                lemma_extend_chain(&c0, &c1, sb, chain0, more@);
                            }
                            let mut more = more;
                            self.clusters.append(&mut more);
                        },
                    }
                }
                let ghost chain1 = self.clusters@;
                proof {
                    assert(chain_ok(&c1, sb, chain1));
                    crate::fat::lemma_clusters_needed(total as int, sb.cluster_bytes());
                    assert(n_sectors(sb, chain1) * 512 == chain1.len() * sb.cluster_bytes()) by (nonlinear_arith)
                        requires
                            n_sectors(sb, chain1) == chain1.len() * sb.sector_per_cluster,
                            sb.cluster_bytes() == sb.sector_per_cluster * 512,
                    ;
                    assert(chain1.len() * sb.cluster_bytes() >= need * sb.cluster_bytes()) by (nonlinear_arith)
                        requires
                            chain1.len() >= need,
                            sb.cluster_bytes() >= 0,
                    ;
                }
                write_bytes(&sb, &mut fs.cache, &self.clusters, self.size, buf);
                let ghost c2 = fs.cache;
                let ghost size0 = self.size as int;
                self.size = total;
                proof {
                    lemma_data_keeps_fat(&c1, &c2, sb, chain1);
                    lemma_fat_layout(sb, chain1[0] as int, 0);
                }
                self.update(fs);
                proof {
                    let c3 = fs.cache;
                    lemma_fat_same_below(&c2, &c3, sb);
                    assert forall|i: int| 0 <= i < chain1.len() implies #[trigger] fat_entry(&c3, chain1[i] as int) == fat_entry(&c1, chain1[i] as int) by {
                        lemma_fat_layout(sb, chain1[i] as int, 0);
                    }
                    lemma_chain_ok_frame(&c1, &c3, sb, chain1);
                    lemma_fat_layout(sb, pc, 0);
                    assert(fat_entry(&c1, pc) == fat_entry(&c0, pc));
                    assert(!in_chain(chain1, pc)) by {
                        if in_chain(chain1, pc) {
                            let i = choose|i: int| 0 <= i < chain1.len() && chain1[i] as int == pc;
                            if i >= chain0.len() {
                                assert(fat_entry(&c0, chain1[i] as int) == FAT_FREE);
                            } else {
                                assert(chain1[i] == chain0[i]);
                            }
                        }
                    }
                    assert forall|i: int| 0 <= i < total implies #[trigger] chain_byte(&c3, sb, chain1, i)
                        == (old(self).content(old(fs)) + buf@)[i] by {
                        lemma_byte_pos(sb, chain1, i);
                        lemma_sector(sb, chain1, i / 512);
                        let a = sector_addr(sb, chain1, i / 512);
                        assert(a != self.addr);
                        assert(c3.block(a) == c2.block(a));
                        assert(chain_byte(&c3, sb, chain1, i) == chain_byte(&c2, sb, chain1, i));
                        assert(old(self).content(old(fs)).len() == size0);
                        if i < size0 {
                            lemma_byte_pos(sb, chain0, i);
                            lemma_sector(sb, chain0, i / 512);
                            assert(sector_addr(sb, chain0, i / 512) == a);
                            assert(c1.block(a) == c0.block(a));
                            assert(chain_byte(&c2, sb, chain1, i) == chain_byte(&c1, sb, chain1, i));
                            assert(chain_byte(&c1, sb, chain1, i) == chain_byte(&c0, sb, chain0, i));
                            assert(old(self).content(old(fs))[i] == chain_byte(&c0, sb, chain0, i));
                        } else {
                            assert(chain_byte(&c2, sb, chain1, i) == buf@[i - size0]);
                        }
                    }
                    assert(self.content(fs) =~= old(self).content(old(fs)) + buf@);
                    assert forall|x: int| 0 <= x < sb.end() && fat_entry(&c0, x) != FAT_FREE && !in_chain(chain0, x)
                        implies #[trigger] fat_entry(&c3, x) == fat_entry(&c0, x) by {
                        lemma_fat_layout(sb, x, 0);
                        assert(x != chain0.last());
                        assert(fat_entry(&c1, x) == fat_entry(&c0, x));
                    }
                    assert forall|a: int|
                        a != self.addr && !(512 <= a < sb.data_start()) && !in_chain(chain0, cluster_of(sb, a))
                            && !(sb.valid_cluster(cluster_of(sb, a)) && fat_entry(&c0, cluster_of(sb, a)) == FAT_FREE)
                        implies #[trigger] fs.cm().block(a) == c0.block(a) by {
                        assert(!in_chain(chain1, cluster_of(sb, a)));
                        assert(c2.block(a) == c1.block(a));
                        assert(c1.block(a) == c0.block(a));
                    }
                }
                Ok(())
            },
        }
    }
}

/// Overwriting a file whose cursor is at its start with `buf`, then reading
/// from the cursor to the end, gives `buf` back.
pub proof fn lemma_overwrite_then_read<D: BlockDevice>(
    f0: FileEntry,
    f1: FileEntry,
    fs1: FileSystem<D>,
    buf: Seq<u8>,
)
    requires
        f0.cursor() == 0,
        f1.size_spec() == buf.len(),
        f1.content(&fs1) == buf,
        f1.cursor() == if f0.cursor() > buf.len() {
            buf.len() as int
        } else {
            f0.cursor()
        },
    ensures
        f1.content(&fs1).subrange(f1.cursor(), f1.size_spec()) == buf,
        f1.size_spec() - f1.cursor() == buf.len(),
{
    assert(buf.subrange(0, buf.len() as int) =~= buf);
}

/// Two appends to an empty file whose cursor is at its start leave it
/// holding the first bytes followed by the second, all of which a read from
/// the cursor gives.
pub proof fn lemma_appends_compose<D: BlockDevice>(
    f0: FileEntry,
    fs0: FileSystem<D>,
    f1: FileEntry,
    fs1: FileSystem<D>,
    f2: FileEntry,
    fs2: FileSystem<D>,
    a: Seq<u8>,
    b: Seq<u8>,
)
    requires
        f0.size_spec() == 0,
        f0.cursor() == 0,
        f1.size_spec() == f0.size_spec() + a.len(),
        f1.content(&fs1) == f0.content(&fs0) + a,
        f1.cursor() == f0.cursor(),
        f2.size_spec() == f1.size_spec() + b.len(),
        f2.content(&fs2) == f1.content(&fs1) + b,
        f2.cursor() == f1.cursor(),
    ensures
        f2.content(&fs2) == a + b,
        f2.content(&fs2).subrange(f2.cursor(), f2.size_spec()) == a + b,
{
    assert(f0.content(&fs0) =~= Seq::<u8>::empty());
    assert(f2.content(&fs2) =~= a + b);
    assert((a + b).subrange(0, (a + b).len() as int) =~= a + b);
}

/// Seeking to `k` and then reading into a buffer of `len` bytes gives the
/// file's bytes from `k` up to `k + len` or the end, whichever comes first,
/// and leaves the cursor there.
pub proof fn lemma_seek_then_read<D: BlockDevice>(
    f0: FileEntry,
    f1: FileEntry,
    f2: FileEntry,
    fs: FileSystem<D>,
    k: int,
    len: int,
    n: int,
    out: Seq<u8>,
)
    requires
        0 <= k <= f0.size_spec(),
        len > 0,
        f1.cursor() == k,
        f1.size_spec() == f0.size_spec(),
        n == if len < f1.size_spec() - k {
            len
        } else {
            f1.size_spec() - k
        },
        out == f1.content(&fs).subrange(k, k + n),
        f2.cursor() == k + n,
    ensures
        out == f1.content(&fs).subrange(
            k,
            if k + len < f1.size_spec() {
                k + len
            } else {
                f1.size_spec()
            },
        ),
        f2.cursor() == if k + len < f1.size_spec() {
            k + len
        } else {
            f1.size_spec()
        },
{
}

} // verus!
