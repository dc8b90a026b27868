use umbrella::device::{BlockDevice, Error};
use umbrella::fs::FileSystem;
use umbrella::maps::{AllocError, BlockMap, INodeFlags, INodeMap};
use umbrella::BlockNumber;

fn fresh_fs() -> FileSystem {
    let device = BlockDevice::create(128, Some(512)).unwrap();
    FileSystem::new(device).unwrap()
}

#[test]
fn format_rejects_small_geometry() {
    let device = BlockDevice::create(128, Some(64)).unwrap();
    assert_eq!(FileSystem::new(device).unwrap_err(), Error::Configuration);
    let device = BlockDevice::create(100, Some(512)).unwrap();
    assert_eq!(FileSystem::new(device).unwrap_err(), Error::Configuration);
}

#[test]
fn allocations_are_distinct_and_unreserved() {
    // superblock + one block-map block + one inode-map block are reserved,
    // so data allocation starts at block 3
    let mut fs = fresh_fs();
    let a = fs.block_map.allocate().unwrap();
    let b = fs.block_map.allocate().unwrap();
    let c = fs.block_map.allocate().unwrap();
    assert_eq!((a.0, b.0, c.0), (3, 4, 5));
    assert!(a.0 >= 3 && b.0 >= 3 && c.0 >= 3);
    assert!(a != b && b != c && a != c);
}

#[test]
fn freed_block_is_reused() {
    let mut fs = fresh_fs();
    let a = fs.block_map.allocate().unwrap();
    fs.block_map.free(a);
    let again = fs.block_map.allocate().unwrap();
    assert_eq!(a, again);
}

#[test]
fn free_is_idempotent() {
    let mut map = BlockMap::new(128, 3);
    let a = map.allocate().unwrap();
    let b = map.allocate().unwrap();
    map.free(a);
    assert!(!map.is_allocated(a));
    map.free(a);
    assert!(!map.is_allocated(a));
    assert!(map.is_allocated(b));
    // freeing the reserved region is refused
    map.free(BlockNumber(0));
    assert!(map.is_allocated(BlockNumber(0)));
    // freeing past the end is a no-op, not a panic
    map.free(BlockNumber(4000));
}

#[test]
fn exhausted_map_reports_rather_than_panics() {
    let mut map = BlockMap::new(128, 3);
    let mut seen = Vec::new();
    for _ in 0..125 {
        let n = map.allocate().unwrap();
        assert!(!seen.contains(&n.0));
        seen.push(n.0);
    }
    assert_eq!(map.allocate().unwrap_err(), AllocError::Exhausted);
    // freeing one block makes exactly that block allocatable again
    map.free(BlockNumber(60));
    assert_eq!(map.allocate().unwrap().0, 60);
    assert_eq!(map.allocate().unwrap_err(), AllocError::Exhausted);
}

#[test]
fn mount_after_plain_drop_is_dirty() {
    let fs = fresh_fs();
    let device = fs.into_device();
    let mount = FileSystem::read(device).unwrap();
    assert!(!mount.clean_mount);
}

#[test]
fn mount_after_close_is_clean() {
    let fs = fresh_fs();
    let device = fs.close().unwrap();
    let mount = FileSystem::read(device).unwrap();
    assert!(mount.clean_mount);
    // reading marked the device dirty again, so dropping without close
    // shows up on the next mount
    let device = mount.file_system.into_device();
    let mount = FileSystem::read(device).unwrap();
    assert!(!mount.clean_mount);
}

#[test]
fn format_allocate_free_scenario() {
    let device = BlockDevice::create(128, Some(512)).unwrap();
    let mut fs = FileSystem::new(device).unwrap();
    let a = fs.block_map.allocate().unwrap();
    let b = fs.block_map.allocate().unwrap();
    let c = fs.block_map.allocate().unwrap();
    assert!(a.0 < b.0 && b.0 < c.0);
    assert_eq!(a.0, 3);
    fs.block_map.free(b);
    let again = fs.block_map.allocate().unwrap();
    assert_eq!(again, b);
}

#[test]
fn maps_survive_close_and_mount() {
    let mut fs = fresh_fs();
    let a = fs.block_map.allocate().unwrap();
    let b = fs.block_map.allocate().unwrap();
    let inode = fs.inode_map.allocate(INodeFlags(7)).unwrap();
    let device = fs.close().unwrap();
    let mount = FileSystem::read(device).unwrap();
    assert!(mount.clean_mount);
    let fs = mount.file_system;
    assert!(fs.block_map.is_allocated(a));
    assert!(fs.block_map.is_allocated(b));
    assert!(!fs.block_map.is_allocated(BlockNumber(5)));
    assert_eq!(fs.inode_map.flags_of(inode).unwrap(), INodeFlags(7));
    assert_eq!(fs.inode_map.flags_of(BlockNumber(1)), None);
}

#[test]
fn inode_allocation_stores_and_clears_flags() {
    let mut map = INodeMap::new(4);
    let a = map.allocate(INodeFlags(0x80)).unwrap();
    let b = map.allocate(INodeFlags(3)).unwrap();
    assert_eq!(a.0, 0);
    assert_eq!(b.0, 1);
    assert_eq!(map.flags_of(a).unwrap(), INodeFlags(0x80));
    assert_eq!(map.flags_of(b).unwrap(), INodeFlags(3));
    map.free(a);
    assert_eq!(map.flags_of(a), None);
    assert!(!map.is_allocated(a));
    // freeing a free slot changes nothing
    map.free(a);
    assert_eq!(map.flags_of(b).unwrap(), INodeFlags(3));
    // the freed slot is the next one handed out
    let again = map.allocate(INodeFlags(1)).unwrap();
    assert_eq!(again, a);
}

#[test]
fn inode_exhaustion_returns_none() {
    let mut map = INodeMap::new(2);
    assert!(map.allocate(INodeFlags(1)).is_some());
    assert!(map.allocate(INodeFlags(1)).is_some());
    assert!(map.allocate(INodeFlags(1)).is_none());
}

#[test]
fn unformatted_device_does_not_mount() {
    // an all-zero image recovers no geometry at all
    let image = vec![0u8; 128 * 512];
    assert_eq!(BlockDevice::open(image).unwrap_err(), Error::Geometry);
}
