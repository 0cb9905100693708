//! A small FAT-style filesystem over an abstract block device.
use vstd::prelude::*;
use vstd::string::StringSliceAdditionalSpecFns;

pub mod cache;
pub mod chain;
pub mod device;
pub mod dir;
pub mod fat;
pub mod file;
pub mod inode;
pub mod sblock;
pub mod system;

pub use crate::device::BlockDevice;
pub use crate::dir::{DirEntry, DirError};
pub use crate::file::{FileEntry, FileError, WriteType};
pub use crate::inode::{INode, INodeType};
pub use crate::system::FileSystem;

verus! {

/// Size in bytes of one device block (one sector).
pub const BLOCK_SIZE: usize = 512;

/// Whether `b` is one of the characters that names may not hold: backslash,
/// slash, colon, star, question mark, double quote, angle brackets and bar.
pub open spec fn is_reserved(b: u8) -> bool {
    b == 0x5c || b == 0x2f || b == 0x3a || b == 0x2a || b == 0x3f || b == 0x22 || b == 0x3c
        || b == 0x3e || b == 0x7c
}

/// Whether a name with the bytes `name` holds a reserved character.
pub open spec fn illegal_name(name: Seq<u8>) -> bool {
    exists|i: int| 0 <= i < name.len() && #[trigger] is_reserved(name[i])
}

/// Whether `chs` holds a reserved character. They are all ASCII, so looking
/// at the UTF-8 bytes finds exactly the reserved characters.
pub fn is_illegal(chs: &str) -> (r: bool)
    ensures
        r == illegal_name(chs.spec_bytes()),
{
    let bytes = chs.as_bytes();
    let mut i: usize = 0;
    while i < bytes.len()
        invariant
            bytes@ == chs.spec_bytes(),
            i <= bytes@.len(),
            forall|j: int| 0 <= j < i ==> !#[trigger] is_reserved(bytes@[j]),
        decreases bytes@.len() - i,
    {
        let b = bytes[i];
        if b == 0x5c || b == 0x2f || b == 0x3a || b == 0x2a || b == 0x3f || b == 0x22 || b == 0x3c
            || b == 0x3e || b == 0x7c {
            assert(is_reserved(bytes@[i as int]));
            return true;
        }
        i += 1;
    }
    false
}

} // verus!
