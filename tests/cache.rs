use fefs::cache::BlockCacheManager;
use fefs::device::{BlockDevice, MemDisk};
use fefs::BLOCK_SIZE;

fn disk() -> MemDisk {
    MemDisk::new(64 * BLOCK_SIZE)
}

#[test]
fn modify_is_seen_by_later_reads() {
    let mut cm = BlockCacheManager::new(disk());
    let a = cm.get_block_cache(1024);
    let b = cm.get_block_cache(1024);
    assert_eq!(a, b);
    cm.modify(1024, 10, &[1, 2, 3]);
    assert_eq!(cm.read(1024, 10, 3), vec![1, 2, 3]);
    cm.modify(1024, 11, &[9]);
    assert_eq!(cm.read(1024, 9, 5), vec![0, 1, 9, 3, 0]);
}

#[test]
fn eviction_writes_back() {
    let mut cm = BlockCacheManager::new(disk());
    for i in 0..20usize {
        cm.modify(i * BLOCK_SIZE, 0, &[i as u8 + 1]);
    }
    for i in 0..20usize {
        assert_eq!(cm.read(i * BLOCK_SIZE, 0, 1), vec![i as u8 + 1]);
    }
    let dev = cm.into_device();
    for i in 0..20usize {
        assert_eq!(dev.data[i * BLOCK_SIZE], i as u8 + 1);
    }
}

#[test]
fn reads_leave_the_device_alone() {
    let mut bytes = vec![0u8; 64 * BLOCK_SIZE];
    bytes[3 * BLOCK_SIZE + 7] = 42;
    let mut cm = BlockCacheManager::new(MemDisk::from_bytes(bytes.clone()));
    for i in 0..20usize {
        cm.read(i * BLOCK_SIZE, 0, 4);
    }
    assert_eq!(cm.read(3 * BLOCK_SIZE, 7, 1), vec![42]);
    let dev = cm.into_device();
    assert_eq!(dev.into_bytes(), bytes);
}

#[test]
fn memory_device_grows_on_write() {
    let mut d = MemDisk::new(0);
    let mut buf = [1u8; BLOCK_SIZE];
    d.read(1024, &mut buf);
    assert_eq!(buf, [0u8; BLOCK_SIZE]);
    d.write(1024, &[5u8; BLOCK_SIZE]);
    assert_eq!(d.bytes().len(), 1536);
    d.read(1024, &mut buf);
    assert_eq!(buf, [5u8; BLOCK_SIZE]);
}
