use fefs::device::MemDisk;
use fefs::dir::DirError;
use fefs::file::{FileError, WriteType};
use fefs::inode::INodeType;
use fefs::system::FileSystem;
use fefs::is_illegal;

const MIB: usize = 1 << 20;

fn fresh(spc: usize) -> FileSystem<MemDisk> {
    FileSystem::create(MemDisk::new(4 * MIB), 512, spc)
}

fn names(fs: &mut FileSystem<MemDisk>) -> Vec<String> {
    let root = fs.root().unwrap();
    root.ls(fs).iter().map(|i| i.name().unwrap()).collect()
}

#[test]
fn create_and_list() {
    let mut fs = FileSystem::create(MemDisk::new(MIB), 512, 4);
    let mut root = fs.root().unwrap();
    root.mkdir(&mut fs, "a").unwrap();
    root.mkdir(&mut fs, "b").unwrap();
    let root = fs.root().unwrap();
    let list = root.ls(&mut fs);
    assert_eq!(list.len(), 2);
    assert_eq!(list[0].name().unwrap(), "a");
    assert_eq!(list[1].name().unwrap(), "b");
    assert!(list[0].is_dir() && list[1].is_dir());
    assert_eq!(list[0].i_type, INodeType::DirEntry);
}

#[test]
fn write_read_roundtrip_after_reopen() {
    let mut fs = fresh(4);
    let mut root = fs.root().unwrap();
    let mut f = root.create_file(&mut fs, "x").unwrap();
    let data: Vec<u8> = (0..=255u8).collect();
    f.write(&mut fs, &data, WriteType::OverWritten).unwrap();
    let dev = fs.unmount();
    let mut fs = FileSystem::open(dev).unwrap();
    let root = fs.root().unwrap();
    let f = root.open_file(&mut fs, "x").unwrap();
    let mut v = Vec::new();
    assert_eq!(f.read_to_vec(&mut fs, &mut v), Ok(256));
    assert_eq!(v, data);
    assert_eq!(f.size(), 256);
}

#[test]
fn append_across_cluster_boundary() {
    let mut fs = fresh(1);
    let mut root = fs.root().unwrap();
    let mut f = root.create_file(&mut fs, "log").unwrap();
    let a: Vec<u8> = (0..400).map(|i| (i % 251) as u8).collect();
    let b: Vec<u8> = (0..200).map(|i| (i % 13) as u8 + 100).collect();
    f.write(&mut fs, &a, WriteType::OverWritten).unwrap();
    f.write(&mut fs, &b, WriteType::Append).unwrap();
    assert_eq!(f.size(), 600);
    assert_eq!(f.cluster_count(), 2);
    let mut out = Vec::new();
    f.read_to_vec(&mut fs, &mut out).unwrap();
    let mut both = a.clone();
    both.extend_from_slice(&b);
    assert_eq!(out, both);
    let f2 = root.open_file(&mut fs, "log").unwrap();
    assert_eq!(f2.size(), 600);
    assert_eq!(f2.cluster_count(), 2);
}

#[test]
fn recursive_delete_frees_everything() {
    let mut fs = fresh(4);
    let mut root = fs.root().unwrap();
    let mut d = root.mkdir(&mut fs, "d").unwrap();
    let d_cluster = d.first_cluster();
    let mut f = d.create_file(&mut fs, "f").unwrap();
    f.write(&mut fs, b"hello", WriteType::OverWritten).unwrap();
    let f_cluster = f.first_cluster();
    assert_ne!(fs.read_fat_entry(d_cluster), 0);
    assert_ne!(fs.read_fat_entry(f_cluster), 0);
    assert_eq!(root.delete(&mut fs, "d"), Ok(()));
    assert_eq!(root.cd(&mut fs, "d").err(), Some(DirError::NotFoundDir));
    assert_eq!(fs.read_fat_entry(d_cluster), 0);
    assert_eq!(fs.read_fat_entry(f_cluster), 0);
    assert!(names(&mut fs).is_empty());
}

#[test]
fn illegal_name_is_refused() {
    let mut fs = fresh(4);
    let mut root = fs.root().unwrap();
    root.mkdir(&mut fs, "ok").unwrap();
    let before = names(&mut fs);
    assert_eq!(root.mkdir(&mut fs, "a/b").err(), Some(DirError::IllegalChar));
    assert_eq!(root.create_file(&mut fs, "c:d").err(), Some(DirError::IllegalChar));
    assert_eq!(names(&mut fs), before);
}

#[test]
fn seek_past_end_is_refused() {
    let mut fs = fresh(4);
    let mut root = fs.root().unwrap();
    let mut f = root.create_file(&mut fs, "ten").unwrap();
    f.write(&mut fs, b"0123456789", WriteType::OverWritten).unwrap();
    assert_eq!(f.size(), 10);
    assert_eq!(f.seek(11), Err(FileError::SeekValueOverFlow));
    let mut out = Vec::new();
    assert_eq!(f.read_to_vec(&mut fs, &mut out), Ok(10));
    assert_eq!(out, b"0123456789".to_vec());
    assert_eq!(f.seek(10), Ok(()));
    assert_eq!(f.read_to_vec(&mut fs, &mut out), Ok(0));
    assert!(out.is_empty());
}

#[test]
fn mkdir_then_cd_finds_the_new_chain() {
    let mut fs = fresh(2);
    let mut root = fs.root().unwrap();
    let d = root.mkdir(&mut fs, "sub").unwrap();
    let again = root.cd(&mut fs, "sub").unwrap();
    assert_eq!(again.first_cluster(), d.first_cluster());
    assert!(again.ls(&mut fs).is_empty());
    let list = root.ls(&mut fs);
    assert_eq!(list[0].cluster(), d.first_cluster());
}

#[test]
fn create_file_twice() {
    let mut fs = fresh(4);
    let mut root = fs.root().unwrap();
    root.create_file(&mut fs, "n").unwrap();
    assert!(root.open_file(&mut fs, "n").is_ok());
    assert_eq!(root.create_file(&mut fs, "n").err(), Some(DirError::FileExist));
    assert_eq!(root.mkdir(&mut fs, "n").err(), Some(DirError::DirExist));
}

#[test]
fn overwrite_then_read_gives_the_bytes() {
    let mut fs = fresh(1);
    let mut root = fs.root().unwrap();
    let mut f = root.create_file(&mut fs, "big").unwrap();
    let data: Vec<u8> = (0..1500).map(|i| (i * 7 % 256) as u8).collect();
    f.write(&mut fs, &data, WriteType::OverWritten).unwrap();
    let mut out = Vec::new();
    f.read_to_vec(&mut fs, &mut out).unwrap();
    assert_eq!(out, data);
    assert_eq!(f.cluster_count(), 3);
    f.write(&mut fs, b"short", WriteType::OverWritten).unwrap();
    f.read_to_vec(&mut fs, &mut out).unwrap();
    assert_eq!(out, b"short".to_vec());
    assert_eq!(f.size(), 5);
    assert_eq!(f.cluster_count(), 1);
}

#[test]
fn writing_nothing_changes_nothing() {
    let mut fs = fresh(1);
    let mut root = fs.root().unwrap();
    let mut f = root.create_file(&mut fs, "e").unwrap();
    f.write(&mut fs, b"abc", WriteType::OverWritten).unwrap();
    assert_eq!(f.write(&mut fs, b"", WriteType::OverWritten), Ok(()));
    assert_eq!(f.write(&mut fs, b"", WriteType::Append), Ok(()));
    assert_eq!(f.size(), 3);
    let mut out = vec![1u8];
    assert_eq!(f.read_to_vec(&mut fs, &mut out), Ok(3));
    assert_eq!(out, b"abc".to_vec());
    let again = root.open_file(&mut fs, "e").unwrap();
    assert_eq!(again.size(), 3);
}

#[test]
fn appends_compose() {
    let mut fs = fresh(2);
    let mut root = fs.root().unwrap();
    let mut f = root.create_file(&mut fs, "c").unwrap();
    let a: Vec<u8> = (0..700).map(|i| (i % 200) as u8).collect();
    let b: Vec<u8> = (0..900).map(|i| (i % 99) as u8).collect();
    f.write(&mut fs, &a, WriteType::Append).unwrap();
    f.write(&mut fs, &b, WriteType::Append).unwrap();
    f.write(&mut fs, b"", WriteType::Append).unwrap();
    let mut out = Vec::new();
    f.read_to_vec(&mut fs, &mut out).unwrap();
    let mut both = a.clone();
    both.extend_from_slice(&b);
    assert_eq!(out, both);
    assert_eq!(f.size(), 1600);
}

#[test]
fn seek_then_read_advances() {
    let mut fs = fresh(1);
    let mut root = fs.root().unwrap();
    let mut f = root.create_file(&mut fs, "s").unwrap();
    let data: Vec<u8> = (0..1000).map(|i| (i % 256) as u8).collect();
    f.write(&mut fs, &data, WriteType::OverWritten).unwrap();
    f.seek(500).unwrap();
    let mut buf = [0u8; 300];
    assert_eq!(f.read(&mut fs, &mut buf), Ok(300));
    assert_eq!(&buf[..], &data[500..800]);
    assert_eq!(f.read(&mut fs, &mut buf), Ok(200));
    assert_eq!(&buf[..200], &data[800..1000]);
    assert_eq!(&buf[200..], &data[700..800]);
    assert_eq!(f.read(&mut fs, &mut buf), Ok(0));
    let mut rest = Vec::new();
    assert_eq!(f.read_to_vec(&mut fs, &mut rest), Ok(0));
}

#[test]
fn delete_removes_entry_and_frees_clusters() {
    let mut fs = fresh(1);
    let mut root = fs.root().unwrap();
    let mut f = root.create_file(&mut fs, "gone").unwrap();
    f.write(&mut fs, &[9u8; 1200], WriteType::OverWritten).unwrap();
    let c = f.first_cluster();
    assert_eq!(root.delete(&mut fs, "gone"), Ok(()));
    assert_eq!(fs.read_fat_entry(c), 0);
    assert!(!names(&mut fs).contains(&"gone".to_string()));
    assert_eq!(root.open_file(&mut fs, "gone").err(), Some(DirError::NotFoundFile));
    assert_eq!(root.delete(&mut fs, "gone"), Err(DirError::NotFound));
    let g = root.create_file(&mut fs, "again").unwrap();
    assert_ne!(fs.read_fat_entry(g.first_cluster()), 0);
}

#[test]
fn wrong_kind_lookups() {
    let mut fs = fresh(4);
    let mut root = fs.root().unwrap();
    root.mkdir(&mut fs, "dir").unwrap();
    root.create_file(&mut fs, "file").unwrap();
    assert_eq!(root.cd(&mut fs, "file").err(), Some(DirError::NotFoundDir));
    assert_eq!(root.open_file(&mut fs, "dir").err(), Some(DirError::NotFoundFile));
    assert_eq!(root.cd(&mut fs, "none").err(), Some(DirError::NotFoundDir));
}

#[test]
fn superblock_round_trips() {
    let fs = FileSystem::create(MemDisk::new(MIB), 512, 4);
    let sb = fs.superblock();
    assert_eq!(sb.byte_per_sector, 512);
    assert_eq!(sb.sector_per_cluster, 4);
    assert_eq!(sb.sector_per_fat, 8);
    assert_eq!(sb.root_cluster, 2);
    let dev = fs.unmount();
    assert_eq!(&dev.data[0..4], b"fefs");
    let head: Vec<u8> = dev.data[0..20].to_vec();
    let fs = FileSystem::open(dev).unwrap();
    assert!(fs.superblock() == sb);
    let dev = fs.unmount();
    assert_eq!(dev.data[0..20].to_vec(), head);
}

#[test]
fn open_refuses_a_blank_device() {
    assert!(FileSystem::open(MemDisk::new(MIB)).is_none());
}

#[test]
fn fresh_fat_is_seeded() {
    let mut fs = fresh(4);
    assert_eq!(fs.read_fat_entry(0), 0xFFFF_FFFF);
    assert_eq!(fs.read_fat_entry(1), 0xFFFF_FFFF);
    assert_eq!(fs.read_fat_entry(2), 0x0FFF_FFFF);
    assert_eq!(fs.read_fat_entry(3), 0);
    let dev = fs.unmount();
    assert_eq!(&dev.data[512..520], &[0xFF; 8]);
    assert_eq!(&dev.data[520..524], &[0xFF, 0xFF, 0xFF, 0x0F]);
}

#[test]
fn directory_grows_past_one_cluster() {
    let mut fs = fresh(1);
    let mut root = fs.root().unwrap();
    for i in 0..3 {
        root.mkdir(&mut fs, &format!("d{}", i)).unwrap();
    }
    let n = names(&mut fs);
    assert_eq!(n, vec!["d0".to_string(), "d1".to_string(), "d2".to_string()]);
    let d2 = root.cd(&mut fs, "d2").unwrap();
    assert!(d2.ls(&mut fs).is_empty());
}

#[test]
fn volume_runs_out_of_space() {
    let mut fs = FileSystem::create(MemDisk::new(MIB), 512, 1);
    let mut root = fs.root().unwrap();
    let mut f = root.create_file(&mut fs, "huge").unwrap();
    let data = vec![1u8; 200 * 1024];
    assert_eq!(f.write(&mut fs, &data, WriteType::OverWritten), Err(FileError::NoSpace));
    assert_eq!(f.size(), 0);
    assert_eq!(f.write(&mut fs, &data, WriteType::Append), Err(FileError::NoSpace));
    f.write(&mut fs, &data[..1000], WriteType::Append).unwrap();
    assert_eq!(f.size(), 1000);
}

#[test]
fn mkdir_without_space() {
    let mut fs = FileSystem::create(MemDisk::new(MIB), 512, 1);
    let mut root = fs.root().unwrap();
    let mut f = root.create_file(&mut fs, "fill").unwrap();
    let mut chunk = 0;
    while f.write(&mut fs, &[7u8; 512], WriteType::Append).is_ok() {
        chunk += 1;
    }
    assert!(chunk > 100);
    assert_eq!(root.mkdir(&mut fs, "late").err(), Some(DirError::NoSpace));
}

#[test]
fn reserved_characters() {
    for s in ["a\\b", "a/b", "a:b", "a*b", "a?b", "a\"b", "a<b", "a>b", "a|b"] {
        assert!(is_illegal(s), "{}", s);
    }
    assert!(!is_illegal("plain-name_1.txt"));
    assert!(!is_illegal(""));
}

#[test]
fn names_decode_as_text() {
    let mut fs = fresh(4);
    let mut root = fs.root().unwrap();
    root.mkdir(&mut fs, "héllo").unwrap();
    let list = root.ls(&mut fs);
    assert_eq!(list[0].name(), Some("héllo".to_string()));
    assert_eq!(list[0].name_bytes(), "héllo".as_bytes().to_vec());
}

#[test]
fn read_into_empty_buffer_is_refused() {
    let mut fs = fresh(1);
    let mut root = fs.root().unwrap();
    let mut f = root.create_file(&mut fs, "r").unwrap();
    f.write(&mut fs, b"abc", WriteType::OverWritten).unwrap();
    let mut empty: [u8; 0] = [];
    assert_eq!(f.read(&mut fs, &mut empty), Err(FileError::BufTooSmall));
    let mut two = [0u8; 2];
    assert_eq!(f.read(&mut fs, &mut two), Ok(2));
    assert_eq!(two, [b'a', b'b']);
}

#[test]
fn delete_of_a_file_in_a_subdirectory() {
    let mut fs = fresh(2);
    let mut root = fs.root().unwrap();
    let mut d = root.mkdir(&mut fs, "d").unwrap();
    let mut a = d.create_file(&mut fs, "a").unwrap();
    a.write(&mut fs, &[3u8; 3000], WriteType::OverWritten).unwrap();
    d.create_file(&mut fs, "b").unwrap();
    assert_eq!(d.delete(&mut fs, "a"), Ok(()));
    assert!(d.ls(&mut fs).is_empty());
    assert!(root.cd(&mut fs, "d").is_ok());
    let c = d.create_file(&mut fs, "c").unwrap();
    let list = d.ls(&mut fs);
    assert_eq!(list.len(), 2);
    assert_eq!(list[0].name(), Some("c".to_string()));
    assert_eq!(list[1].name(), Some("b".to_string()));
    assert_eq!(c.size(), 0);
}


#[test]
fn overwrite_reuses_its_own_clusters_on_a_full_volume() {
    let mut fs = FileSystem::create(MemDisk::new(MIB), 512, 1);
    let mut root = fs.root().unwrap();
    let mut f = root.create_file(&mut fs, "all").unwrap();
    let mut n = 0;
    while f.write(&mut fs, &[1u8; 512], WriteType::Append).is_ok() {
        n += 1;
    }
    let size = f.size();
    assert_eq!(size, n * 512);
    let fresh = vec![9u8; size];
    assert_eq!(f.write(&mut fs, &fresh, WriteType::OverWritten), Ok(()));
    let mut out = Vec::new();
    f.read_to_vec(&mut fs, &mut out).unwrap();
    assert_eq!(out, fresh);
    let bigger = vec![2u8; size + 512];
    assert_eq!(f.write(&mut fs, &bigger, WriteType::OverWritten), Err(FileError::NoSpace));
    assert_eq!(f.size(), 0);
    assert_eq!(f.cluster_count(), 1);
}

#[test]
fn deep_delete_frees_every_level() {
    let mut fs = fresh(1);
    let mut root = fs.root().unwrap();
    let mut a = root.mkdir(&mut fs, "a").unwrap();
    let mut b = a.mkdir(&mut fs, "b").unwrap();
    let mut c = b.mkdir(&mut fs, "c").unwrap();
    let mut f = c.create_file(&mut fs, "f").unwrap();
    f.write(&mut fs, &[5u8; 1500], WriteType::OverWritten).unwrap();
    let clusters = vec![a.first_cluster(), b.first_cluster(), c.first_cluster(), f.first_cluster()];
    for &cl in &clusters {
        assert_ne!(fs.read_fat_entry(cl), 0);
    }
    assert_eq!(root.delete(&mut fs, "a"), Ok(()));
    for &cl in &clusters {
        assert_eq!(fs.read_fat_entry(cl), 0);
    }
    assert!(root.ls(&mut fs).is_empty());
    let last_freed = clusters[3] + 2;
    let g = root.create_file(&mut fs, "g").unwrap();
    assert_eq!(g.first_cluster(), last_freed);
}
