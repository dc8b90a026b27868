use umbrella::block_number::{decode_pointers, encode_pointers};
use umbrella::cache::{Cache, SharedVec};
use umbrella::device::{BlockDevice, Error};
use umbrella::BlockNumber;

fn numbers(values: &[u64]) -> Vec<BlockNumber> {
    values.iter().map(|v| BlockNumber(*v)).collect()
}

fn values(numbers: &[BlockNumber]) -> Vec<u64> {
    numbers.iter().map(|n| n.0).collect()
}

#[test]
fn as_u8() {
    let vec: Vec<u64> = vec![0, 1, 2u64.pow(20) - 1, 3];
    let bytes = encode_pointers(&numbers(&vec));
    let back = decode_pointers(&bytes);
    assert_eq!(vec, values(&back));
}

#[test]
fn pointer_encoding_is_little_endian() {
    let bytes = encode_pointers(&numbers(&[1]));
    assert_eq!(bytes, vec![1, 0, 0, 0, 0, 0, 0, 0]);
    let bytes = encode_pointers(&numbers(&[0x0102030405060708]));
    assert_eq!(bytes, vec![8, 7, 6, 5, 4, 3, 2, 1]);
    let bytes = encode_pointers(&numbers(&[256, u64::MAX]));
    assert_eq!(
        bytes,
        vec![0, 1, 0, 0, 0, 0, 0, 0, 255, 255, 255, 255, 255, 255, 255, 255]
    );
}

#[test]
fn device_create_and_open_round_trip() {
    let device = BlockDevice::create(128, Some(512)).unwrap();
    assert_eq!(device.config.block_size, 512);
    assert_eq!(device.config.block_count, 128);
    let image = device.into_storage();
    assert_eq!(image.len(), 128 * 512);
    let reopened = BlockDevice::open(image).unwrap();
    assert_eq!(reopened.config.block_size, 512);
    assert_eq!(reopened.config.block_count, 128);
}

#[test]
fn device_create_uses_default_block_size() {
    let device = BlockDevice::create(200, None).unwrap();
    assert_eq!(device.config.block_size, 512);
    assert_eq!(device.config.block_count, 200);
}

#[test]
fn device_create_rejects_bad_parameters() {
    assert_eq!(
        BlockDevice::create(0, Some(512)).unwrap_err(),
        Error::Configuration
    );
    assert_eq!(
        BlockDevice::create(128, Some(4)).unwrap_err(),
        Error::Configuration
    );
}

#[test]
fn device_open_rejects_inconsistent_image() {
    assert_eq!(BlockDevice::open(vec![]).unwrap_err(), Error::Geometry);
    assert_eq!(
        BlockDevice::open(vec![0u8; 100]).unwrap_err(),
        Error::Geometry
    );
    // valid geometry header but wrong total length
    let device = BlockDevice::create(128, Some(512)).unwrap();
    let mut image = device.into_storage();
    image.pop();
    assert_eq!(BlockDevice::open(image).unwrap_err(), Error::Geometry);
}

#[test]
fn device_read_write_round_trip() {
    let mut device = BlockDevice::create(128, Some(512)).unwrap();
    let pattern: Vec<u8> = (0..512).map(|i| (i % 251) as u8).collect();
    device.write(BlockNumber(3), &pattern).unwrap();
    let mut buffer = vec![0u8; 512];
    device.read(BlockNumber(3), &mut buffer).unwrap();
    assert_eq!(buffer, pattern);
    // a neighbouring block is untouched
    device.read(BlockNumber(4), &mut buffer).unwrap();
    assert!(buffer.iter().all(|b| *b == 0));
}

#[test]
fn device_rejects_out_of_range_block() {
    let mut device = BlockDevice::create(128, Some(512)).unwrap();
    let mut buffer = vec![0u8; 512];
    assert_eq!(
        device.read(BlockNumber(128), &mut buffer).unwrap_err(),
        Error::OutOfRange
    );
    assert_eq!(
        device.write(BlockNumber(4000), &buffer).unwrap_err(),
        Error::OutOfRange
    );
}

#[test]
fn cache_pointer_round_trip() {
    // write pointers through the cache, flush, reload through a fresh
    // cache: the sequence comes back element for element
    let device = BlockDevice::create(128, Some(512)).unwrap();
    let mut cache = Cache::new(device);
    let ptrs: Vec<u64> = (0..64).map(|i| i * 3 + 7).collect();
    cache.write_pointers(BlockNumber(5), numbers(&ptrs));
    cache.write_all().unwrap();
    let device = cache.into_device();
    let mut fresh = Cache::new(device);
    let got = fresh.read_pointers(BlockNumber(5)).unwrap();
    assert_eq!(values(got.borrow()), ptrs);
}

#[test]
fn cache_rejects_cross_variant_read() {
    let device = BlockDevice::create(128, Some(512)).unwrap();
    let mut cache = Cache::new(device);
    // cached as Pointers, read as Block fails
    cache.write_pointers(BlockNumber(9), numbers(&[0; 64]));
    assert_eq!(cache.read(BlockNumber(9)).unwrap_err(), Error::CacheInvalid);
    // cached as Block, read as Pointers fails
    cache.read(BlockNumber(10)).unwrap();
    assert_eq!(
        cache.read_pointers(BlockNumber(10)).unwrap_err(),
        Error::CacheInvalid
    );
    // an explicit re-tag is the sanctioned way across
    cache.write_pointers(BlockNumber(10), numbers(&[1; 64]));
    let got = cache.read_pointers(BlockNumber(10)).unwrap();
    assert_eq!(values(got.borrow()), vec![1; 64]);
}

#[test]
fn cache_read_caches_device_state() {
    let device = BlockDevice::create(128, Some(512)).unwrap();
    let mut cache = Cache::new(device);
    // a write through the cache is not on the device until write_all
    cache.write(BlockNumber(7), vec![42u8; 512]);
    let probe = Cache::new(cache.into_device());
    let device = probe.into_device();
    let mut buffer = vec![0u8; 512];
    device.read(BlockNumber(7), &mut buffer).unwrap();
    assert!(buffer.iter().all(|b| *b == 0));
    // after write_all it is
    let mut cache = Cache::new(device);
    cache.write(BlockNumber(7), vec![42u8; 512]);
    cache.write_all().unwrap();
    let device = cache.into_device();
    device.read(BlockNumber(7), &mut buffer).unwrap();
    assert!(buffer.iter().all(|b| *b == 42));
}

#[test]
fn cache_read_out_of_range() {
    let device = BlockDevice::create(128, Some(512)).unwrap();
    let mut cache = Cache::new(device);
    assert_eq!(
        cache.read(BlockNumber(128)).unwrap_err(),
        Error::OutOfRange
    );
}

#[test]
fn shared_vec_guards_its_buffer() {
    let mut sv = SharedVec::new(vec![1u8, 2, 3]);
    assert_eq!(sv.borrow().as_slice(), &[1, 2, 3]);
    sv.borrow_mut().push(4);
    assert_eq!(sv.borrow().as_slice(), &[1, 2, 3, 4]);
}
