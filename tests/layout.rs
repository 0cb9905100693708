use fefs::device::MemDisk;
use fefs::fat::num_clusters;
use fefs::inode::{INode, INodeType};
use fefs::sblock::{SuperBlock, FEFS_MAGIC};
use fefs::system::FileSystem;

fn sb(spc: usize) -> SuperBlock {
    SuperBlock {
        magic: FEFS_MAGIC,
        byte_per_sector: 512,
        sector_per_cluster: spc,
        sector_per_fat: 2 * spc,
        root_cluster: 2,
    }
}

#[test]
fn cluster_offsets() {
    let s = sb(4);
    assert_eq!(s.fat(), 512);
    assert_eq!(s.offset(2), 4096);
    assert_eq!(s.offset(3), 6144);
    assert_eq!(s.fat_end(), 896);
    let s1 = sb(1);
    assert_eq!(s1.offset(2), 1024);
    assert_eq!(s1.offset(10), 5120);
    assert_eq!(s1.fat_end(), 128);
    assert!(s1.is_valid());
    let mut bad = s1;
    bad.magic = 0;
    assert!(!bad.is_valid());
}

#[test]
fn cluster_counts() {
    assert_eq!(num_clusters(0, 512), 1);
    assert_eq!(num_clusters(1, 512), 1);
    assert_eq!(num_clusters(512, 512), 1);
    assert_eq!(num_clusters(513, 512), 2);
    assert_eq!(num_clusters(600, 512), 2);
    assert_eq!(num_clusters(4096, 2048), 2);
}

#[test]
fn inode_encoding_is_packed_little_endian() {
    let mut i = INode::new(INodeType::FileEntry, b"abc", 0x0102_0304, 7);
    i.i_size_lo = 600;
    let b = i.encode();
    assert_eq!(b.len(), 64);
    assert_eq!(b[0], 2);
    assert_eq!(&b[1..4], b"abc");
    assert_eq!(b[17], 3);
    assert_eq!(&b[22..26], &[0x58, 0x02, 0, 0]);
    assert_eq!(&b[52..56], &[4, 3, 2, 1]);
    assert_eq!(&b[56..60], &[7, 0, 0, 0]);
    let back = INode::decode(&b);
    assert!(back.is_file() && !back.is_dir() && back.is_valid() && !back.is_none());
    assert_eq!(back.size(), 600);
    assert_eq!(back.cluster(), 0x0102_0304);
    assert_eq!(back.name(), Some("abc".to_string()));
}

#[test]
fn unknown_slot_type_reads_as_free() {
    let mut b = vec![0u8; 64];
    b[0] = 0xE5;
    assert!(INode::decode(&b).is_none());
    b[0] = 1;
    assert!(INode::decode(&b).is_dir());
}

#[test]
fn superblock_bytes_on_disk() {
    let fs = FileSystem::create(MemDisk::new(1 << 20), 512, 2);
    let dev = fs.unmount();
    let d = dev.into_bytes();
    assert_eq!(&d[0..4], b"fefs");
    assert_eq!(&d[4..8], &[0, 2, 0, 0]);
    assert_eq!(&d[8..12], &[2, 0, 0, 0]);
    assert_eq!(&d[12..16], &[4, 0, 0, 0]);
    assert_eq!(&d[16..20], &[2, 0, 0, 0]);
}
