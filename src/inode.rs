use vstd::bytes::*;
use vstd::prelude::*;
use vstd::slice::slice_subrange;
use vstd::utf8::{decode_utf8, valid_utf8};

verus! {

/// Bytes one directory entry takes at the start of its sector.
pub const INODE_BYTES: usize = 64;

/// Longest name an entry can hold, in bytes.
pub const NAME_CAP: usize = 16;

/// What a directory slot holds.
#[derive(Clone, Copy, PartialEq, Eq, Debug, Structural)]
pub enum INodeType {
    NoneEntry,
    DirEntry,
    FileEntry,
}

impl Default for INodeType {
    fn default() -> (r: Self)
        ensures
            r == INodeType::NoneEntry,
    {
        INodeType::NoneEntry
    }
}

/// The byte a slot type is stored as.
pub open spec fn type_byte(t: INodeType) -> u8 {
    match t {
        INodeType::NoneEntry => 0,
        INodeType::DirEntry => 1,
        INodeType::FileEntry => 2,
    }
}

/// The slot type a stored byte stands for; anything unknown reads as free.
pub open spec fn type_of(b: u8) -> INodeType {
    if b == 1 {
        INodeType::DirEntry
    } else if b == 2 {
        INodeType::FileEntry
    } else {
        INodeType::NoneEntry
    }
}

/// A directory entry as stored in a sector: type, name, size, first cluster
/// of its data, first cluster of its parent, and fields kept verbatim.
///
/// On disk the fields are packed in declaration order, little-endian, in
/// `INODE_BYTES` bytes.
#[derive(Clone, Copy)]
pub struct INode {
    pub i_type: INodeType,
    pub i_name: [u8; 16],
    pub i_name_len: u8,
    pub i_mode: u16,
    pub i_uid: u16,
    pub i_size_lo: u32,
    pub i_atime: u32,
    pub i_ctime: u32,
    pub i_mtime: u32,
    pub i_dtime: u32,
    pub i_gid: u16,
    pub i_links_count: u16,
    pub i_blocks_lo: u16,
    pub i_flags: u32,
    pub i_cluster: u32,
    pub i_pre_cluster: u32,
    pub i_offset: u32,
}

pub open spec fn u16_at(s: Seq<u8>, o: int) -> u16 {
    spec_u16_from_le_bytes(s.subrange(o, o + 2))
}

pub open spec fn u32_at(s: Seq<u8>, o: int) -> u32 {
    spec_u32_from_le_bytes(s.subrange(o, o + 4))
}

/// The bytes `i` is stored as.
pub open spec fn inode_bytes(i: INode) -> Seq<u8> {
    seq![type_byte(i.i_type)] + i.i_name@ + seq![i.i_name_len] + spec_u16_to_le_bytes(i.i_mode)
        + spec_u16_to_le_bytes(i.i_uid) + spec_u32_to_le_bytes(i.i_size_lo) + spec_u32_to_le_bytes(
        i.i_atime,
    ) + spec_u32_to_le_bytes(i.i_ctime) + spec_u32_to_le_bytes(i.i_mtime) + spec_u32_to_le_bytes(
        i.i_dtime,
    ) + spec_u16_to_le_bytes(i.i_gid) + spec_u16_to_le_bytes(i.i_links_count)
        + spec_u16_to_le_bytes(i.i_blocks_lo) + spec_u32_to_le_bytes(i.i_flags)
        + spec_u32_to_le_bytes(i.i_cluster) + spec_u32_to_le_bytes(i.i_pre_cluster)
        + spec_u32_to_le_bytes(i.i_offset)
}

/// The type of the entry stored in `s`.
pub open spec fn slot_type(s: Seq<u8>) -> INodeType {
    type_of(s[0])
}

/// Whether `s` holds an entry: a directory or a file.
pub open spec fn slot_valid(s: Seq<u8>) -> bool {
    slot_type(s) != INodeType::NoneEntry
}

/// Number of name bytes the entry stored in `s` has.
pub open spec fn slot_name_len(s: Seq<u8>) -> int {
    if s[17] <= NAME_CAP {
        s[17] as int
    } else {
        NAME_CAP as int
    }
}

/// The name of the entry stored in `s`.
pub open spec fn slot_name(s: Seq<u8>) -> Seq<u8> {
    s.subrange(1, 1 + slot_name_len(s))
}

/// The first data cluster of the entry stored in `s`.
pub open spec fn slot_cluster(s: Seq<u8>) -> u32 {
    u32_at(s, 52)
}

/// The size in bytes of the entry stored in `s`.
pub open spec fn slot_size(s: Seq<u8>) -> u32 {
    u32_at(s, 22)
}

/// `i` is what the bytes `s` hold.
pub open spec fn decodes(i: INode, s: Seq<u8>) -> bool {
    &&& i.i_type == type_of(s[0])
    &&& i.i_name@ == s.subrange(1, 17)
    &&& i.i_name_len == s[17]
    &&& i.i_mode == u16_at(s, 18)
    &&& i.i_uid == u16_at(s, 20)
    &&& i.i_size_lo == u32_at(s, 22)
    &&& i.i_atime == u32_at(s, 26)
    &&& i.i_ctime == u32_at(s, 30)
    &&& i.i_mtime == u32_at(s, 34)
    &&& i.i_dtime == u32_at(s, 38)
    &&& i.i_gid == u16_at(s, 42)
    &&& i.i_links_count == u16_at(s, 44)
    &&& i.i_blocks_lo == u16_at(s, 46)
    &&& i.i_flags == u32_at(s, 48)
    &&& i.i_cluster == u32_at(s, 52)
    &&& i.i_pre_cluster == u32_at(s, 56)
    &&& i.i_offset == u32_at(s, 60)
}

/// Reading back an encoded entry gives every field unchanged.
pub proof fn lemma_inode_round_trip(i: INode)
    ensures
        inode_bytes(i).len() == INODE_BYTES,
        decodes(i, inode_bytes(i)),
{
    lemma_auto_spec_u16_to_from_le_bytes();
    lemma_auto_spec_u32_to_from_le_bytes();
    let s = inode_bytes(i);
    assert(s.subrange(1, 17) =~= i.i_name@);
    assert(s.subrange(18, 20) =~= spec_u16_to_le_bytes(i.i_mode));
    assert(s.subrange(20, 22) =~= spec_u16_to_le_bytes(i.i_uid));
    assert(s.subrange(22, 26) =~= spec_u32_to_le_bytes(i.i_size_lo));
    assert(s.subrange(26, 30) =~= spec_u32_to_le_bytes(i.i_atime));
    assert(s.subrange(30, 34) =~= spec_u32_to_le_bytes(i.i_ctime));
    assert(s.subrange(34, 38) =~= spec_u32_to_le_bytes(i.i_mtime));
    assert(s.subrange(38, 42) =~= spec_u32_to_le_bytes(i.i_dtime));
    assert(s.subrange(42, 44) =~= spec_u16_to_le_bytes(i.i_gid));
    assert(s.subrange(44, 46) =~= spec_u16_to_le_bytes(i.i_links_count));
    assert(s.subrange(46, 48) =~= spec_u16_to_le_bytes(i.i_blocks_lo));
    assert(s.subrange(48, 52) =~= spec_u32_to_le_bytes(i.i_flags));
    assert(s.subrange(52, 56) =~= spec_u32_to_le_bytes(i.i_cluster));
    assert(s.subrange(56, 60) =~= spec_u32_to_le_bytes(i.i_pre_cluster));
    assert(s.subrange(60, 64) =~= spec_u32_to_le_bytes(i.i_offset));
}

fn get_u16(s: &[u8], o: usize) -> (r: u16)
    requires
        o + 2 <= s@.len(),
        o + 2 <= INODE_BYTES,
    ensures
        r == u16_at(s@, o as int),
{
    u16_from_le_bytes(slice_subrange(s, o, o + 2))
}

fn get_u32(s: &[u8], o: usize) -> (r: u32)
    requires
        o + 4 <= s@.len(),
        o + 4 <= INODE_BYTES,
    ensures
        r == u32_at(s@, o as int),
{
    u32_from_le_bytes(slice_subrange(s, o, o + 4))
}

fn push_u16(v: &mut Vec<u8>, x: u16)
    ensures
        final(v)@ == old(v)@ + spec_u16_to_le_bytes(x),
{
    let mut b = u16_to_le_bytes(x);
    v.append(&mut b);
}

fn push_u32(v: &mut Vec<u8>, x: u32)
    ensures
        final(v)@ == old(v)@ + spec_u32_to_le_bytes(x),
{
    let mut b = u32_to_le_bytes(x);
    v.append(&mut b);
}

/// Relies on `core::str::from_utf8`: it accepts exactly the byte strings
/// that are valid UTF-8, and the string it gives holds the characters they
/// encode.
#[verifier::external_body]
fn str_from_utf8(b: &[u8]) -> (r: Option<String>)
    ensures
        r is Some <==> valid_utf8(b@),
        r matches Some(s) ==> s@ == decode_utf8(b@),
{
    match core::str::from_utf8(b) {
        Ok(s) => Some(s.to_owned()),
        Err(_) => None,
    }
}

impl INode {
    /// A fresh entry of type `t` named by the first `name.len()` bytes, with
    /// its data at `cluster` and its parent at `pre_cluster`; every other
    /// field is zero.
    pub fn new(t: INodeType, name: &[u8], cluster: u32, pre_cluster: u32) -> (r: INode)
        requires
            name@.len() <= NAME_CAP,
        ensures
            r.i_type == t,
            r.i_name@.subrange(0, name@.len() as int) == name@,
            r.i_name_len == name@.len(),
            r.i_size_lo == 0,
            r.i_cluster == cluster,
            r.i_pre_cluster == pre_cluster,
    {
        let mut n: [u8; 16] = [0u8; 16];
        let mut k: usize = 0;
        while k < name.len()
            invariant
                name@.len() <= NAME_CAP,
                k <= name@.len(),
                n@.len() == 16,
                forall|j: int| 0 <= j < k ==> n@[j] == name@[j],
            decreases name@.len() - k,
        {
            n.set(k, name[k]);
            k += 1;
        }
        assert(n@.subrange(0, name@.len() as int) =~= name@);
        INode {
            i_type: t,
            i_name: n,
            i_name_len: name.len() as u8,
            i_mode: 0,
            i_uid: 0,
            i_size_lo: 0,
            i_atime: 0,
            i_ctime: 0,
            i_mtime: 0,
            i_dtime: 0,
            i_gid: 0,
            i_links_count: 0,
            i_blocks_lo: 0,
            i_flags: 0,
            i_cluster: cluster,
            i_pre_cluster: pre_cluster,
            i_offset: 0,
        }
    }

    /// The entry the bytes `s` hold.
    pub fn decode(s: &[u8]) -> (r: INode)
        requires
            s@.len() >= INODE_BYTES,
        ensures
            decodes(r, s@),
    {
        let t = if s[0] == 1 {
            INodeType::DirEntry
        } else if s[0] == 2 {
            INodeType::FileEntry
        } else {
            INodeType::NoneEntry
        };
        let mut n: [u8; 16] = [0u8; 16];
        let mut k: usize = 0;
        while k < 16
            invariant
                s@.len() >= INODE_BYTES,
                k <= 16,
                n@.len() == 16,
                forall|j: int| 0 <= j < k ==> n@[j] == s@[1 + j],
            decreases 16 - k,
        {
            n.set(k, s[1 + k]);
            k += 1;
        }
        assert(n@ =~= s@.subrange(1, 17));
        INode {
            i_type: t,
            i_name: n,
            i_name_len: s[17],
            i_mode: get_u16(s, 18),
            i_uid: get_u16(s, 20),
            i_size_lo: get_u32(s, 22),
            i_atime: get_u32(s, 26),
            i_ctime: get_u32(s, 30),
            i_mtime: get_u32(s, 34),
            i_dtime: get_u32(s, 38),
            i_gid: get_u16(s, 42),
            i_links_count: get_u16(s, 44),
            i_blocks_lo: get_u16(s, 46),
            i_flags: get_u32(s, 48),
            i_cluster: get_u32(s, 52),
            i_pre_cluster: get_u32(s, 56),
            i_offset: get_u32(s, 60),
        }
    }

    /// The bytes this entry is stored as.
    pub fn encode(&self) -> (r: Vec<u8>)
        ensures
            r@ == inode_bytes(*self),
            r@.len() == INODE_BYTES,
    {
        let tb: u8 = match self.i_type {
            INodeType::NoneEntry => 0,
            INodeType::DirEntry => 1,
            INodeType::FileEntry => 2,
        };
        let mut v: Vec<u8> = Vec::new();
        v.push(tb);
        let mut k: usize = 0;
        while k < 16
            invariant
                k <= 16,
                self.i_name@.len() == 16,
                v@ == seq![tb] + self.i_name@.subrange(0, k as int),
            decreases 16 - k,
        {
            v.push(self.i_name[k]);
            k += 1;
            assert(v@ =~= seq![tb] + self.i_name@.subrange(0, k as int));
        }
        assert(self.i_name@.subrange(0, 16) =~= self.i_name@);
        v.push(self.i_name_len);
        push_u16(&mut v, self.i_mode);
        push_u16(&mut v, self.i_uid);
        push_u32(&mut v, self.i_size_lo);
        push_u32(&mut v, self.i_atime);
        push_u32(&mut v, self.i_ctime);
        push_u32(&mut v, self.i_mtime);
        push_u32(&mut v, self.i_dtime);
        push_u16(&mut v, self.i_gid);
        push_u16(&mut v, self.i_links_count);
        push_u16(&mut v, self.i_blocks_lo);
        push_u32(&mut v, self.i_flags);
        push_u32(&mut v, self.i_cluster);
        push_u32(&mut v, self.i_pre_cluster);
        push_u32(&mut v, self.i_offset);
        proof {
            lemma_inode_round_trip(*self);
        }
        assert(v@ =~= inode_bytes(*self));
        v
    }

    pub fn is_dir(&self) -> (r: bool)
        ensures
            r == (self.i_type == INodeType::DirEntry),
    {
        self.i_type == INodeType::DirEntry
    }

    pub fn is_file(&self) -> (r: bool)
        ensures
            r == (self.i_type == INodeType::FileEntry),
    {
        self.i_type == INodeType::FileEntry
    }

    pub fn is_none(&self) -> (r: bool)
        ensures
            r == (self.i_type == INodeType::NoneEntry),
    {
        self.i_type == INodeType::NoneEntry
    }

    /// Whether this slot holds an entry.
    pub fn is_valid(&self) -> (r: bool)
        ensures
            r == (self.i_type != INodeType::NoneEntry),
    {
        !self.is_none()
    }

    /// The first data cluster.
    pub fn cluster(&self) -> (r: usize)
        ensures
            r == self.i_cluster,
    {
        self.i_cluster as usize
    }

    /// The size in bytes (files only).
    pub fn size(&self) -> (r: usize)
        ensures
            r == self.i_size_lo,
    {
        self.i_size_lo as usize
    }

    /// The bytes of the name: the first `i_name_len` bytes of the name field
    /// (all of it when the length byte is larger).
    pub fn name_bytes(&self) -> (r: Vec<u8>)
        ensures
            r@ == self.i_name@.subrange(
                0,
                if self.i_name_len <= NAME_CAP {
                    self.i_name_len as int
                } else {
                    NAME_CAP as int
                },
            ),
    {
        let len: usize = if (self.i_name_len as usize) <= NAME_CAP {
            self.i_name_len as usize
        } else {
            NAME_CAP
        };
        let mut r: Vec<u8> = Vec::new();
        let mut k: usize = 0;
        while k < len
            invariant
                len <= NAME_CAP,
                self.i_name@.len() == 16,
                k <= len,
                r@ == self.i_name@.subrange(0, k as int),
            decreases len - k,
        {
            r.push(self.i_name[k]);
            k += 1;
            assert(r@ =~= self.i_name@.subrange(0, k as int));
        }
        r
    }

    /// The name as text; `None` when its bytes are not UTF-8.
    pub fn name(&self) -> (r: Option<String>)
        ensures
            ({
                let b = self.i_name@.subrange(
                    0,
                    if self.i_name_len <= NAME_CAP {
                        self.i_name_len as int
                    } else {
                        NAME_CAP as int
                    },
                );
                &&& r is Some <==> valid_utf8(b)
                &&& r matches Some(s) ==> s@ == decode_utf8(b)
            }),
    {
        let b = self.name_bytes();
        str_from_utf8(b.as_slice())
    }
}

} // verus!
