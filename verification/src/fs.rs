//! The filesystem lifecycle: format (`new`), mount (`read`) and unmount
//! (`close`), tying one cache, one block map and one inode map to a device.
//!
//! On-disk layout, identical for `new` and `read`: block 0 is the
//! superblock (two little-endian bytes of `block_size`, eight of
//! `block_count`, then the clean-shutdown marker byte, zeros to the end of
//! the block); the block map region starts at block 1, one byte per block;
//! the inode map region follows, two bytes per slot (allocation mark, then
//! flags); everything past the reserved region is the allocatable data
//! area. The marker byte is 1 exactly when the previous session closed the
//! filesystem; `new` and `read` leave it 0 on the device, `close` sets it.

use vstd::prelude::*;

use vstd::arithmetic::div_mod::{
    lemma_fundamental_div_mod, lemma_fundamental_div_mod_converse, lemma_mod_bound,
};

use crate::block_number::{u16_le, u64_le, read_u16_le, read_u64_le, push_u16_le, push_u64_le,
    lemma_u16_le_round_trip, lemma_u64_le_round_trip, BlockNumber};
use crate::cache::{Cache, EntryModel, model_bytes};
use crate::device::{lemma_block_offset_in_range, lemma_le_of_mul_le, lemma_write_block_at,
    BlockDevice, Config, Error};
use crate::maps::{encode_region_block, inode_bytes, region_block, BlockMap, INodeMap};

verus! {

/// Smallest block size a filesystem may be formatted with.
pub const MIN_BLOCK_SIZE: u16 = 128;

/// Smallest block count a filesystem may be formatted with.
pub const MIN_BLOCK_COUNT: u64 = 128;

/// Offset of the clean-shutdown marker byte inside the superblock.
pub const MARKER_OFFSET: u16 = 10;

pub open spec fn div_ceil(a: int, b: int) -> int {
    (a + b - 1) / b
}

/// Blocks taken by the block map region: one byte per block.
pub open spec fn bm_blocks(bs: int, bc: int) -> int {
    div_ceil(bc, bs)
}

/// Blocks taken by the inode map region: two bytes per slot, one slot per
/// block.
pub open spec fn im_blocks(bs: int, bc: int) -> int {
    div_ceil(2 * bc, bs)
}

/// First block of the inode map region.
pub open spec fn im_start(bs: int, bc: int) -> int {
    1 + bm_blocks(bs, bc)
}

/// Blocks reserved for the superblock and the two maps.
pub open spec fn reserved_count(bs: int, bc: int) -> int {
    1 + bm_blocks(bs, bc) + im_blocks(bs, bc)
}

/// Geometry a filesystem accepts: both minimums kept, and the reserved
/// region leaving room for data blocks.
pub open spec fn geometry_ok(c: Config) -> bool {
    &&& c.block_size >= MIN_BLOCK_SIZE
    &&& c.block_count >= MIN_BLOCK_COUNT
    &&& reserved_count(c.block_size as int, c.block_count as int) <= c.block_count
}

/// The superblock's byte image.
pub open spec fn superblock_bytes(bs: u16, bc: u64, clean: bool) -> Seq<u8> {
    Seq::new(
        bs as nat,
        |i: int|
            if i < 2 {
                u16_le(bs)[i]
            } else if i < 10 {
                u64_le(bc)[i - 2]
            } else if i == 10 {
                if clean {
                    1u8
                } else {
                    0u8
                }
            } else {
                0u8
            },
    )
}

/// Rounding up to blocks covers the bytes, overshoots by less than one
/// block, and stays within the count being covered.
pub proof fn lemma_div_ceil_bounds(a: int, b: int)
    requires
        0 <= a,
        1 <= b,
    ensures
        div_ceil(a, b) * b >= a,
        div_ceil(a, b) * b < a + b,
        div_ceil(a, b) >= 0,
        a >= 1 ==> div_ceil(a, b) >= 1,
        div_ceil(a, b) <= a,
{
    let q = (a + b - 1) / b;
    let r = (a + b - 1) % b;
    lemma_fundamental_div_mod(a + b - 1, b);
    lemma_mod_bound(a + b - 1, b);
    assert(q * b >= a && q * b < a + b && q >= 0 && (a >= 1 ==> q >= 1) && q <= a)
        by (nonlinear_arith)
        requires
            0 <= a,
            1 <= b,
            a + b - 1 == b * q + r,
            0 <= r < b,
    {
        if q > a {
            assert(q * b >= (a + 1) * b);
        }
        if a >= 1 && q < 1 {
            assert(q * b <= 0);
        }
    }
}

/// Builds the superblock's byte image.
pub fn build_superblock(bs: u16, bc: u64, clean: bool) -> (r: Vec<u8>)
    requires
        bs >= MARKER_OFFSET + 1,
    ensures
        r@ == superblock_bytes(bs, bc, clean),
        r.len() == bs,
{
    let mut out: Vec<u8> = Vec::new();
    push_u16_le(&mut out, bs);
    push_u64_le(&mut out, bc);
    if clean {
        out.push(1u8);
    } else {
        out.push(0u8);
    }
    while out.len() < bs as usize
        invariant
            11 <= out.len() <= bs,
            out@ == superblock_bytes(bs, bc, clean).take(out.len() as int),
        decreases bs - out.len(),
    {
        out.push(0u8);
        assert(out@ =~= superblock_bytes(bs, bc, clean).take(out.len() as int));
    }
    proof {
        assert(superblock_bytes(bs, bc, clean).take(bs as int) =~= superblock_bytes(
            bs,
            bc,
            clean,
        ));
    }
    out
}

/// A mounted or freshly formatted filesystem: one cache (owning the
/// device), one block map, one inode map. Consumed by `close`; after that
/// the only way back is a fresh `read`.
#[derive(Debug)]
pub struct FileSystem {
    pub block_map: BlockMap,
    pub inode_map: INodeMap,
    pub cache: Cache,
}

/// What `read` hands back: the filesystem, and whether the previous
/// session shut it down cleanly. An unclean mount is a warning, not a
/// failure: the filesystem is usable.
#[derive(Debug)]
pub struct Mount {
    pub clean_mount: bool,
    pub file_system: FileSystem,
}

impl FileSystem {
    pub open spec fn config(self) -> Config {
        self.cache.device.config
    }

    pub open spec fn bs(self) -> int {
        self.config().block_size as int
    }

    pub open spec fn bc(self) -> int {
        self.config().block_count as int
    }

    /// The byte image of block `i` on the underlying device.
    pub open spec fn disk_block(self, i: int) -> Seq<u8> {
        self.cache.device.block_at(i)
    }

    pub open spec fn wf(self) -> bool {
        &&& self.cache.wf()
        &&& geometry_ok(self.config())
        &&& self.block_map.wf()
        &&& self.block_map.slots.len() == self.bc()
        &&& self.block_map.reserved == reserved_count(self.bs(), self.bc())
        &&& self.inode_map.wf()
        &&& self.inode_map.used.len() == self.bc()
        &&& forall|k: u64| self.cache.model().contains_key(k) ==> k < self.config().block_count
    }
}

/// Installs the blocks of one map region in the cache: block `start + j`
/// takes the `j`-th block-sized window of `bytes`, zero-padded. Entries
/// outside the region are untouched.
fn write_map_region(cache: &mut Cache, bytes: &Vec<u8>, start: u64, blocks: u64)
    requires
        old(cache).wf(),
        blocks * old(cache).device.config.block_size <= usize::MAX,
        start + blocks <= u64::MAX,
    ensures
        final(cache).wf(),
        final(cache).device == old(cache).device,
        forall|k: u64|
            final(cache).model().contains_key(k) <==> (old(cache).model().contains_key(k) || (
            start <= k < start + blocks)),
        forall|t: u64|
            start <= t < start + blocks ==> final(cache).model()[t] == EntryModel::Bytes(
                region_block(
                    bytes@,
                    t - start,
                    old(cache).device.block_size_spec(),
                ),
            ),
        forall|k: u64|
            old(cache).model().contains_key(k) && !(start <= k < start + blocks)
                ==> final(cache).model()[k] == old(cache).model()[k],
    {
    let bs = cache.device.config.block_size as usize;
    let mut j: u64 = 0;
    while j < blocks
        invariant
            cache.wf(),
            cache.device == old(cache).device,
            bs == cache.device.config.block_size,
            blocks * bs <= usize::MAX,
            start + blocks <= u64::MAX,
            0 <= j <= blocks,
            forall|k: u64|
                cache.model().contains_key(k) <==> (old(cache).model().contains_key(k) || (start
                    <= k < start + j)),
            forall|t: u64|
                start <= t < start + j ==> cache.model()[t] == EntryModel::Bytes(
                    region_block(bytes@, t - start, cache.device.block_size_spec()),
                ),
            forall|k: u64|
                old(cache).model().contains_key(k) && !(start <= k < start + j) ==> cache.model()[k]
                    == old(cache).model()[k],
        decreases blocks - j,
    {
        proof {
            lemma_block_offset_in_range(j as int, blocks as int, bs as int);
            lemma_le_of_mul_le(j as int, bs as int, usize::MAX as int);
        }
        let img = encode_region_block(bytes, j as usize, bs);
        cache.write(BlockNumber(start + j), img);
        j = j + 1;
    }
}


/// Computes the region layout for a geometry.
fn layout(bs: u16, bc: u64) -> (r: (u64, u64, u64))
    requires
        bs >= MIN_BLOCK_SIZE,
        bc >= 1,
        bc * bs <= usize::MAX,
    ensures
        r.0 == bm_blocks(bs as int, bc as int),
        r.1 == im_blocks(bs as int, bc as int),
        r.2 == reserved_count(bs as int, bc as int),
{
    proof {
        assert(128 * bc <= bc * bs) by (nonlinear_arith)
            requires
                bs >= 128,
                bc >= 0,
        ;
        lemma_div_ceil_bounds(bc as int, bs as int);
        lemma_div_ceil_bounds(2 * (bc as int), bs as int);
    }
    let bmb: u64 = (bc + (bs as u64) - 1) / (bs as u64);
    let imb: u64 = (2 * bc + (bs as u64) - 1) / (bs as u64);
    let reserved: u64 = 1 + bmb + imb;
    (bmb, imb, reserved)
}

impl FileSystem {
    /// Formats `device` into a fresh filesystem: validates the geometry,
    /// reserves the superblock and map blocks, and writes the superblock
    /// and both (empty) maps to the device at once, with the shutdown
    /// marker left dirty: the filesystem is not clean until `close`. Data
    /// blocks are untouched. Fails with `Configuration`, writing nothing,
    /// exactly when the geometry is below the minimums or leaves no room
    /// for data.
    pub fn new(device: BlockDevice) -> (r: Result<FileSystem, Error>)
        requires
            device.wf(),
        ensures
            match r {
                Ok(fs) => {
                    &&& geometry_ok(device.config)
                    &&& fs.wf()
                    &&& fs.config() == device.config
                    &&& forall|i: int|
                        0 <= i < fs.bc() ==> (fs.block_map.allocated(i) <==> i < reserved_count(
                            fs.bs(),
                            fs.bc(),
                        ))
                    &&& forall|i: int| 0 <= i < fs.bc() ==> !fs.inode_map.allocated(i)
                    &&& fs.disk_block(0) == superblock_bytes(
                        device.config.block_size,
                        device.config.block_count,
                        false,
                    )
                    &&& forall|j: int|
                        0 <= j < bm_blocks(fs.bs(), fs.bc()) ==> fs.disk_block(1 + j)
                            == region_block(fs.block_map.slots@, j, fs.bs())
                    &&& forall|j: int|
                        0 <= j < im_blocks(fs.bs(), fs.bc()) ==> fs.disk_block(
                            im_start(fs.bs(), fs.bc()) + j,
                        ) == region_block(
                            inode_bytes(fs.inode_map.used@, fs.inode_map.flags@),
                            j,
                            fs.bs(),
                        )
                    &&& forall|k: int|
                        reserved_count(fs.bs(), fs.bc()) <= k < fs.bc() ==> fs.disk_block(k)
                            == device.block_at(k)
                },
                Err(e) => e == Error::Configuration && !geometry_ok(device.config),
            },
    {
        let bs = device.config.block_size;
        let bc = device.config.block_count;
        let _total = device.storage.len();
        proof {
            assert(bc * bs <= usize::MAX);
        }
        if bs < MIN_BLOCK_SIZE || bc < MIN_BLOCK_COUNT {
            return Err(Error::Configuration);
        }
        let (bmb, imb, reserved) = layout(bs, bc);
        if reserved > bc {
            return Err(Error::Configuration);
        }
        proof {
            lemma_le_of_mul_le(bc as int, bs as int, usize::MAX as int);
            assert(128 * bc <= bc * bs) by (nonlinear_arith)
                requires
                    bs >= 128,
                    bc >= 0,
            ;
            assert(2 * bc <= bc * bs) by (nonlinear_arith)
                requires
                    bs >= 2,
                    bc >= 0,
            ;
            lemma_div_ceil_bounds(bc as int, bs as int);
            lemma_div_ceil_bounds(2 * (bc as int), bs as int);
        }
        let block_map = BlockMap::new(bc as usize, reserved as usize);
        let inode_map = INodeMap::new(bc as usize);
        let ghost dev0 = device;
        let mut cache = Cache::new(device);
        let sb = build_superblock(bs, bc, false);
        cache.write(BlockNumber(0), sb);
        proof {
            assert(bmb * bs < bc + bs <= usize::MAX);
        }
        write_map_region(&mut cache, &block_map.slots, 1, bmb);
        let ghost m1 = cache.model();
        let im_bytes = inode_map.to_bytes();
        proof {
            assert(imb * bs < 2 * bc + bs <= usize::MAX);
        }
        write_map_region(&mut cache, &im_bytes, 1 + bmb, imb);
        proof {
            assert forall|k: u64| cache.model().contains_key(k) implies k < reserved by {}
        }
        let ghost m2 = cache.model();
        match cache.write_all() {
            Ok(()) => {},
            Err(_) => {
                proof {
                    let k = choose|k: u64|
                        #[trigger] m2.contains_key(k) && k >= bc;
                    assert(false);
                }
                return Err(Error::Configuration);
            },
        }
        let fs = FileSystem { block_map, inode_map, cache };
        proof {
            let bsi = bs as int;
            let bci = bc as int;
            assert(fs.disk_block(0) == superblock_bytes(bs, bc, false)) by {
                assert(m2.contains_key(0u64) && m2[0u64] == EntryModel::Bytes(
                    superblock_bytes(bs, bc, false),
                ));
            }
            assert forall|j: int| 0 <= j < bm_blocks(bsi, bci) implies fs.disk_block(1 + j)
                == region_block(fs.block_map.slots@, j, bsi) by {
                let t: u64 = (1 + j) as u64;
                assert(m1.contains_key(t) && m1[t] == EntryModel::Bytes(
                    region_block(block_map.slots@, t - 1, bsi),
                ));
                assert(m2[t] == m1[t]);
                assert(t < bc);
            }
            assert forall|j: int| 0 <= j < im_blocks(bsi, bci) implies fs.disk_block(
                im_start(bsi, bci) + j,
            ) == region_block(inode_bytes(inode_map.used@, inode_map.flags@), j, bsi) by {
                let t: u64 = (im_start(bsi, bci) + j) as u64;
                assert(1 + bmb <= t < 1 + bmb + imb);
                assert(m2.contains_key(t) && m2[t] == EntryModel::Bytes(
                    region_block(im_bytes@, t - (1 + bmb), bsi),
                ));
                assert(im_bytes@ == inode_bytes(inode_map.used@, inode_map.flags@));
                assert(t < bc);
            }
            assert forall|k: int| reserved_count(bsi, bci) <= k < bci implies fs.disk_block(k)
                == dev0.block_at(k) by {
                assert(!m2.contains_key(k as u64));
            }
            assert forall|k: u64| fs.cache.model().contains_key(k) implies k
                < fs.config().block_count by {}
        }
        Ok(fs)
    }
}


/// A vector of `n` zero bytes.
fn zeroes(n: usize) -> (r: Vec<u8>)
    ensures
        r@ == Seq::new(n as nat, |i: int| 0u8),
        r.len() == n,
{
    let mut out: Vec<u8> = Vec::new();
    while out.len() < n
        invariant
            out.len() <= n,
            out@ == Seq::new(out.len() as nat, |i: int| 0u8),
        decreases n - out.len(),
    {
        out.push(0u8);
        assert(out@ =~= Seq::new(out.len() as nat, |i: int| 0u8));
    }
    out
}

/// The bytes of a run of `blocks` consecutive device blocks from `start`,
/// in order.
pub open spec fn region_bytes(d: BlockDevice, start: int, blocks: int) -> Seq<u8> {
    Seq::new(
        (blocks * d.block_size_spec()) as nat,
        |t: int| d.block_at(start + t / d.block_size_spec())[t % d.block_size_spec()],
    )
}

/// The block size recorded in a device's superblock.
pub open spec fn stored_block_size(d: BlockDevice) -> u16 {
    crate::block_number::u16_from_le(d.block_at(0).subrange(0, 2))
}

/// The block count recorded in a device's superblock.
pub open spec fn stored_block_count(d: BlockDevice) -> u64 {
    crate::block_number::u64_from_le(d.block_at(0).subrange(2, 10))
}

/// A device `read` accepts: its superblock agrees with its geometry, and
/// the geometry is one `new` accepts.
pub open spec fn formatted(d: BlockDevice) -> bool {
    &&& stored_block_size(d) == d.config.block_size
    &&& stored_block_count(d) == d.config.block_count
    &&& geometry_ok(d.config)
}

/// Reads the bytes of one map region off the device.
fn read_region(device: &BlockDevice, start: u64, blocks: u64) -> (r: Vec<u8>)
    requires
        device.wf(),
        start + blocks <= device.config.block_count,
        blocks * device.config.block_size <= usize::MAX,
    ensures
        r@ == region_bytes(*device, start as int, blocks as int),
        r.len() == blocks * device.config.block_size,
{
    let bs = device.config.block_size as usize;
    let mut out: Vec<u8> = Vec::new();
    let mut j: u64 = 0;
    while j < blocks
        invariant
            device.wf(),
            start + blocks <= device.config.block_count,
            blocks * bs <= usize::MAX,
            bs == device.config.block_size,
            j <= blocks,
            out.len() == j * bs,
            out@ == region_bytes(*device, start as int, blocks as int).take((j * bs) as int),
        decreases blocks - j,
    {
        proof {
            lemma_block_offset_in_range(j as int, blocks as int, bs as int);
        }
        let mut buf = zeroes(bs);
        match device.read(BlockNumber(start + j), &mut buf) {
            Ok(()) => {},
            Err(_) => {
                proof {
                    assert(false);
                }
            },
        }
        proof {
            lemma_block_offset_in_range(
                (start + j) as int,
                device.block_count_spec(),
                device.block_size_spec(),
            );
            assert(buf@.len() == bs);
        }
        let mut t: usize = 0;
        while t < bs
            invariant
                t <= bs,
                bs == device.config.block_size,
                device.wf(),
                j < blocks,
                start + blocks <= device.config.block_count,
                blocks * bs <= usize::MAX,
                (j + 1) * bs <= blocks * bs,
                j * bs + bs == (j + 1) * bs,
                buf@ == device.block_at((start + j) as int),
                buf@.len() == bs,
                out.len() == j * bs + t,
                out@ == region_bytes(*device, start as int, blocks as int).take(
                    (j * bs) as int,
                ) + buf@.take(t as int),
            decreases bs - t,
        {
            out.push(buf[t]);
            assert(out@ =~= region_bytes(*device, start as int, blocks as int).take(
                (j * bs) as int,
            ) + buf@.take(t + 1));
            t = t + 1;
        }
        proof {
            let reg = region_bytes(*device, start as int, blocks as int);
            assert(buf@.take(bs as int) =~= buf@);
            assert forall|p: int| 0 <= p < (j + 1) * bs implies #[trigger] reg.take(
                ((j + 1) * bs) as int,
            )[p] == (reg.take((j * bs) as int) + buf@)[p] by {
                if p >= j * bs {
                    let t0 = p - j * bs;
                    lemma_fundamental_div_mod_converse(p, bs as int, j as int, t0);
                    assert(reg[p] == device.block_at(start + j)[t0]);
                }
            }
            assert(out@ =~= reg.take(((j + 1) * bs) as int));
        }
        j = j + 1;
    }
    proof {
        let reg = region_bytes(*device, start as int, blocks as int);
        assert(reg.take((blocks * bs) as int) =~= reg);
    }
    out
}

impl FileSystem {
    /// Mounts the filesystem persisted on `device`: checks that the
    /// superblock's geometry matches the device's, rebuilds both maps from
    /// their regions, reports whether the previous session closed cleanly,
    /// and marks the device dirty so that a session that never reaches
    /// `close` is seen as unclean by the next mount. Nothing else on the
    /// device changes. Fails with `Geometry`, changing nothing, exactly
    /// when the superblock and geometry do not agree as `formatted` asks.
    pub fn read(device: BlockDevice) -> (r: Result<Mount, Error>)
        requires
            device.wf(),
        ensures
            match r {
                Ok(m) => {
                    &&& formatted(device)
                    &&& m.clean_mount == (device.block_at(0)[MARKER_OFFSET as int] == 1)
                    &&& m.file_system.wf()
                    &&& m.file_system.config() == device.config
                    &&& forall|i: int|
                        0 <= i < m.file_system.bc() ==> (m.file_system.block_map.allocated(i)
                            <==> (i < reserved_count(m.file_system.bs(), m.file_system.bc())
                            || region_bytes(
                            device,
                            1,
                            bm_blocks(m.file_system.bs(), m.file_system.bc()),
                        )[i] != 0))
                    &&& forall|i: int|
                        0 <= i < m.file_system.bc() ==> (m.file_system.inode_map.allocated(i)
                            <==> region_bytes(
                            device,
                            im_start(m.file_system.bs(), m.file_system.bc()),
                            im_blocks(m.file_system.bs(), m.file_system.bc()),
                        )[2 * i] != 0)
                    &&& forall|i: int|
                        0 <= i < m.file_system.bc() && m.file_system.inode_map.allocated(i)
                            ==> m.file_system.inode_map.flags@[i] == region_bytes(
                            device,
                            im_start(m.file_system.bs(), m.file_system.bc()),
                            im_blocks(m.file_system.bs(), m.file_system.bc()),
                        )[2 * i + 1]
                    &&& m.file_system.disk_block(0) == superblock_bytes(
                        device.config.block_size,
                        device.config.block_count,
                        false,
                    )
                    &&& forall|k: int|
                        1 <= k < m.file_system.bc() ==> m.file_system.disk_block(k)
                            == device.block_at(k)
                },
                Err(e) => e == Error::Geometry && !formatted(device),
            },
    {
        let bs = device.config.block_size;
        let bc = device.config.block_count;
        let _total = device.storage.len();
        proof {
            assert(bc * bs <= usize::MAX);
            lemma_block_offset_in_range(0, bc as int, bs as int);
        }
        let mut sb = zeroes(bs as usize);
        match device.read(BlockNumber(0), &mut sb) {
            Ok(()) => {},
            Err(_) => {
                proof {
                    assert(false);
                }
            },
        }
        proof {
            assert(sb@.len() == bs);
            assert(sb@.subrange(0, 2) =~= device.block_at(0).subrange(0, 2));
            assert(sb@.subrange(2, 10) =~= device.block_at(0).subrange(2, 10));
        }
        let sbs = read_u16_le(&sb, 0);
        let sbc = read_u64_le(&sb, 2);
        let clean = sb[MARKER_OFFSET as usize] == 1;
        if sbs != bs || sbc != bc {
            return Err(Error::Geometry);
        }
        if bs < MIN_BLOCK_SIZE || bc < MIN_BLOCK_COUNT {
            return Err(Error::Geometry);
        }
        let (bmb, imb, reserved) = layout(bs, bc);
        if reserved > bc {
            return Err(Error::Geometry);
        }
        proof {
            lemma_le_of_mul_le(bc as int, bs as int, usize::MAX as int);
            assert(128 * bc <= bc * bs) by (nonlinear_arith)
                requires
                    bs >= 128,
                    bc >= 0,
            ;
            assert(2 * bc <= bc * bs) by (nonlinear_arith)
                requires
                    bs >= 2,
                    bc >= 0,
            ;
            lemma_div_ceil_bounds(bc as int, bs as int);
            lemma_div_ceil_bounds(2 * (bc as int), bs as int);
            assert(bmb * bs < bc + bs <= usize::MAX);
            assert(imb * bs < 2 * bc + bs <= usize::MAX);
        }
        let bm_bytes = read_region(&device, 1, bmb);
        let im_bytes = read_region(&device, 1 + bmb, imb);
        proof {
            lemma_le_of_mul_le(bmb as int, bs as int, usize::MAX as int);
            lemma_le_of_mul_le(imb as int, bs as int, usize::MAX as int);
        }
        let block_map = BlockMap::decode(&bm_bytes, bc as usize, reserved as usize);
        let inode_map = INodeMap::decode(&im_bytes, bc as usize);
        let ghost dev0 = device;
        let mut cache = Cache::new(device);
        let sb_dirty = build_superblock(bs, bc, false);
        cache.write(BlockNumber(0), sb_dirty);
        match cache.write_all() {
            Ok(()) => {},
            Err(_) => {
                proof {
                    let k = choose|k: u64|
                        #[trigger] cache.model().contains_key(k) && k
                            >= cache.device.config.block_count;
                    assert(false);
                }
                return Err(Error::Geometry);
            },
        }
        let fs = FileSystem { block_map, inode_map, cache };
        proof {
            assert(fs.disk_block(0) == superblock_bytes(bs, bc, false));
            assert forall|k: int| 1 <= k < fs.bc() implies fs.disk_block(k) == dev0.block_at(
                k,
            ) by {
                assert(!fs.cache.model().contains_key(k as u64));
            }
        }
        Ok(Mount { clean_mount: clean, file_system: fs })
    }

    /// Gives the device back without flushing and without writing the
    /// clean marker: the unclean end of a session, as when a mounted
    /// filesystem is dropped without `close`.
    pub fn into_device(self) -> (r: BlockDevice)
        ensures
            r == self.cache.device,
    {
        self.cache.into_device()
    }

    /// Unmounts: re-encodes both maps into the cache, flushes every cached
    /// entry to the device, and only then writes the clean-shutdown marker,
    /// so the marker never outruns the data it vouches for. Consumes the
    /// filesystem and hands the flushed device back; on a well-formed
    /// filesystem nothing can fail.
    pub fn close(self) -> (r: Result<BlockDevice, Error>)
        requires
            self.wf(),
        ensures
            match r {
                Ok(d) => {
                    &&& d.wf()
                    &&& d.config == self.config()
                    &&& d.block_at(0) == superblock_bytes(
                        self.config().block_size,
                        self.config().block_count,
                        true,
                    )
                    &&& forall|j: int|
                        0 <= j < bm_blocks(self.bs(), self.bc()) ==> d.block_at(1 + j)
                            == region_block(self.block_map.slots@, j, self.bs())
                    &&& forall|j: int|
                        0 <= j < im_blocks(self.bs(), self.bc()) ==> d.block_at(
                            im_start(self.bs(), self.bc()) + j,
                        ) == region_block(
                            inode_bytes(self.inode_map.used@, self.inode_map.flags@),
                            j,
                            self.bs(),
                        )
                    &&& forall|k: int|
                        reserved_count(self.bs(), self.bc()) <= k < self.bc() ==> d.block_at(k)
                            == (if self.cache.model().contains_key(k as u64) {
                            model_bytes(self.cache.model()[k as u64])
                        } else {
                            self.cache.device.block_at(k)
                        })
                },
                Err(_) => false,
            },
    {
        let FileSystem { block_map, inode_map, mut cache } = self;
        let ghost m0 = cache.model();
        let ghost dev0 = cache.device;
        let bs = cache.device.config.block_size;
        let bc = cache.device.config.block_count;
        let _total = cache.device.storage.len();
        proof {
            assert(bc * bs <= usize::MAX);
            lemma_le_of_mul_le(bc as int, bs as int, usize::MAX as int);
            assert(128 * bc <= bc * bs) by (nonlinear_arith)
                requires
                    bs >= 128,
                    bc >= 0,
            ;
            assert(2 * bc <= bc * bs) by (nonlinear_arith)
                requires
                    bs >= 2,
                    bc >= 0,
            ;
            lemma_div_ceil_bounds(bc as int, bs as int);
            lemma_div_ceil_bounds(2 * (bc as int), bs as int);
        }
        let (bmb, imb, reserved) = layout(bs, bc);
        proof {
            assert(bmb * bs < bc + bs <= usize::MAX);
            assert(imb * bs < 2 * bc + bs <= usize::MAX);
        }
        write_map_region(&mut cache, &block_map.slots, 1, bmb);
        let ghost m1 = cache.model();
        let im_bytes = inode_map.to_bytes();
        write_map_region(&mut cache, &im_bytes, 1 + bmb, imb);
        let ghost m2 = cache.model();
        proof {
            assert forall|k: u64| m2.contains_key(k) implies k < bc by {}
        }
        match cache.write_all() {
            Ok(()) => {},
            Err(_) => {
                proof {
                    let k = choose|k: u64| #[trigger] m2.contains_key(k) && k >= bc;
                    assert(false);
                }
                return Err(Error::OutOfRange);
            },
        }
        let ghost dev1 = cache.device;
        let mut device = cache.into_device();
        let sb = build_superblock(bs, bc, true);
        let ghost sbv = sb@;
        match device.write(BlockNumber(0), &sb) {
            Ok(()) => {},
            Err(_) => {
                proof {
                    assert(false);
                }
                return Err(Error::OutOfRange);
            },
        }
        proof {
            lemma_write_block_at(dev1, device, 0, sbv);
            assert forall|j: int| 0 <= j < bm_blocks(bs as int, bc as int) implies device.block_at(
                1 + j,
            ) == region_block(block_map.slots@, j, bs as int) by {
                let t: u64 = (1 + j) as u64;
                assert(m1.contains_key(t) && m1[t] == EntryModel::Bytes(
                    region_block(block_map.slots@, t - 1, bs as int),
                ));
                assert(m2[t] == m1[t]);
                assert(t < bc);
            }
            assert forall|j: int| 0 <= j < im_blocks(bs as int, bc as int) implies device.block_at(
                im_start(bs as int, bc as int) + j,
            ) == region_block(inode_bytes(inode_map.used@, inode_map.flags@), j, bs as int) by {
                let t: u64 = (im_start(bs as int, bc as int) + j) as u64;
                assert(1 + bmb <= t < 1 + bmb + imb);
                assert(m2.contains_key(t) && m2[t] == EntryModel::Bytes(
                    region_block(im_bytes@, t - (1 + bmb), bs as int),
                ));
                assert(t < bc);
            }
            assert forall|k: int| reserved_count(bs as int, bc as int) <= k < bc as int implies
            device.block_at(k) == (if m0.contains_key(k as u64) {
                model_bytes(m0[k as u64])
            } else {
                dev0.block_at(k)
            }) by {
                if m0.contains_key(k as u64) {
                    assert(m2.contains_key(k as u64));
                    assert(m2[k as u64] == m0[k as u64]);
                }
            }
        }
        Ok(device)
    }
}

/// Law: a freshly formatted or cleanly closed device mounts again. The
/// superblock that `new` and `close` leave in block 0 parses back to the
/// very geometry it was written with, so `read` accepts the device: the
/// on-disk layout round-trips between one session and the next.
pub proof fn lemma_format_then_mount(d: BlockDevice, clean: bool)
    requires
        d.wf(),
        geometry_ok(d.config),
        d.block_at(0) == superblock_bytes(d.config.block_size, d.config.block_count, clean),
    ensures
        formatted(d),
{
    let bs = d.config.block_size;
    let bc = d.config.block_count;
    assert(d.block_at(0).subrange(0, 2) =~= u16_le(bs));
    assert(d.block_at(0).subrange(2, 10) =~= u64_le(bc));
    lemma_u16_le_round_trip(bs);
    lemma_u64_le_round_trip(bc);
}

/// Law: the map regions round-trip. On a device whose region blocks hold
/// the block-sized windows of `bytes` — as they do after `new` or `close`
/// — reading the region back with `read` finds `bytes` in every position,
/// so the maps a mount reconstructs are the maps the previous session
/// persisted.
pub proof fn lemma_region_round_trip(d: BlockDevice, bytes: Seq<u8>, start: int, blocks: int)
    requires
        d.wf(),
        0 <= start,
        0 <= blocks,
        bytes.len() <= blocks * d.block_size_spec(),
        forall|j: int|
            0 <= j < blocks ==> d.block_at(start + j) == region_block(
                bytes,
                j,
                d.block_size_spec(),
            ),
    ensures
        forall|i: int|
            0 <= i < bytes.len() ==> #[trigger] region_bytes(d, start, blocks)[i] == bytes[i],
{
    let bs = d.block_size_spec();
    assert forall|i: int| 0 <= i < bytes.len() implies #[trigger] region_bytes(d, start, blocks)[i]
        == bytes[i] by {
        let j = i / bs;
        let t = i % bs;
        lemma_fundamental_div_mod(i, bs);
        lemma_mod_bound(i, bs);
        assert(0 <= j && j < blocks) by (nonlinear_arith)
            requires
                i == bs * j + t,
                0 <= t < bs,
                0 <= i,
                i < blocks * bs,
        {
            if j < 0 {
                assert(bs * j <= 0 - bs);
            }
            if j >= blocks {
                assert(bs * j >= bs * blocks);
            }
        }
        assert(region_bytes(d, start, blocks)[i] == d.block_at(start + j)[t]);
        assert(region_block(bytes, j, bs)[t] == bytes[j * bs + t]);
    }
}

/// Law: a mount after `close` sees the session's allocations. When the
/// block-map region on `d` holds what `close` persisted for `old_map`,
/// the map that `read`'s contract describes over that region marks
/// exactly the blocks `old_map` marked.
pub proof fn lemma_close_then_mount_recovers_block_map(
    old_map: BlockMap,
    d: BlockDevice,
    new_map: BlockMap,
)
    requires
        d.wf(),
        old_map.wf(),
        old_map.slots.len() == d.config.block_count,
        old_map.reserved == reserved_count(d.block_size_spec(), d.block_count_spec()),
        geometry_ok(d.config),
        forall|j: int|
            0 <= j < bm_blocks(d.block_size_spec(), d.block_count_spec()) ==> d.block_at(1 + j)
                == region_block(old_map.slots@, j, d.block_size_spec()),
        new_map.slots.len() == d.config.block_count,
        new_map.reserved == old_map.reserved,
        forall|i: int|
            0 <= i < d.block_count_spec() ==> (new_map.allocated(i) <==> (i < new_map.reserved
                || region_bytes(
                d,
                1,
                bm_blocks(d.block_size_spec(), d.block_count_spec()),
            )[i] != 0)),
    ensures
        forall|i: int|
            0 <= i < d.block_count_spec() ==> (new_map.allocated(i) <==> old_map.allocated(i)),
{
    let bs = d.block_size_spec();
    let bc = d.block_count_spec();
    let bmb = bm_blocks(bs, bc);
    lemma_div_ceil_bounds(bc, bs);
    lemma_region_round_trip(d, old_map.slots@, 1, bmb);
    assert forall|i: int| 0 <= i < bc implies (new_map.allocated(i) <==> old_map.allocated(
        i,
    )) by {
        assert(region_bytes(d, 1, bmb)[i] == old_map.slots@[i]);
        assert(old_map.slots@[i] == 0 || old_map.slots@[i] == 1);
        if i < old_map.reserved {
            assert(old_map.slots@[i] == 1);
        }
    }
}

/// Law: a mount after `close` sees the session's inodes. When the
/// inode-map region on `d` holds what `close` persisted for `old_map`,
/// the map that `read`'s contract describes over that region marks
/// exactly the slots `old_map` marked, with the same flags.
pub proof fn lemma_close_then_mount_recovers_inode_map(
    old_map: INodeMap,
    d: BlockDevice,
    new_map: INodeMap,
)
    requires
        d.wf(),
        old_map.wf(),
        old_map.used.len() == d.config.block_count,
        geometry_ok(d.config),
        forall|j: int|
            0 <= j < im_blocks(d.block_size_spec(), d.block_count_spec()) ==> d.block_at(
                im_start(d.block_size_spec(), d.block_count_spec()) + j,
            ) == region_block(
                inode_bytes(old_map.used@, old_map.flags@),
                j,
                d.block_size_spec(),
            ),
        new_map.wf(),
        new_map.used.len() == d.config.block_count,
        forall|i: int|
            0 <= i < d.block_count_spec() ==> (new_map.allocated(i) <==> region_bytes(
                d,
                im_start(d.block_size_spec(), d.block_count_spec()),
                im_blocks(d.block_size_spec(), d.block_count_spec()),
            )[2 * i] != 0),
        forall|i: int|
            0 <= i < d.block_count_spec() && new_map.allocated(i) ==> new_map.flags@[i]
                == region_bytes(
                d,
                im_start(d.block_size_spec(), d.block_count_spec()),
                im_blocks(d.block_size_spec(), d.block_count_spec()),
            )[2 * i + 1],
    ensures
        forall|i: int|
            0 <= i < d.block_count_spec() ==> (new_map.allocated(i) <==> old_map.allocated(i)),
        forall|i: int|
            0 <= i < d.block_count_spec() ==> new_map.flags@[i] == old_map.flags@[i],
{
    let bs = d.block_size_spec();
    let bc = d.block_count_spec();
    let imb = im_blocks(bs, bc);
    let bytes = inode_bytes(old_map.used@, old_map.flags@);
    lemma_div_ceil_bounds(2 * bc, bs);
    lemma_region_round_trip(d, bytes, im_start(bs, bc), imb);
    assert forall|i: int| 0 <= i < bc implies (new_map.allocated(i) <==> old_map.allocated(
        i,
    )) by {
        assert(bytes[2 * i] == old_map.used@[i]);
        assert(region_bytes(d, im_start(bs, bc), imb)[2 * i] == old_map.used@[i]);
        assert(old_map.used@[i] == 0 || old_map.used@[i] == 1);
    }
    assert forall|i: int| 0 <= i < bc implies new_map.flags@[i] == old_map.flags@[i] by {
        assert(bytes[2 * i] == old_map.used@[i]);
        assert(bytes[2 * i + 1] == old_map.flags@[i]);
        assert(region_bytes(d, im_start(bs, bc), imb)[2 * i] == old_map.used@[i]);
        assert(region_bytes(d, im_start(bs, bc), imb)[2 * i + 1] == old_map.flags@[i]);
        assert(old_map.used@[i] == 0 || old_map.used@[i] == 1);
        if old_map.used@[i] == 0 {
            assert(old_map.flags@[i] == 0);
            assert(region_bytes(d, im_start(bs, bc), imb)[2 * i] == 0);
            assert(!new_map.allocated(i));
            assert(new_map.used@[i] == 0 || new_map.used@[i] == 1);
            assert(new_map.used@[i] == 0);
            assert(new_map.flags@[i] == 0);
        } else {
            assert(new_map.allocated(i));
        }
    }
}

/// Law: the shutdown marker tells clean from dirty. The superblock that
/// `new` and `read` leave on the device carries marker 0, the one `close`
/// writes carries marker 1; with `read`'s contract, a mount right after
/// `new` or an unclean drop reports `clean_mount == false`, and one right
/// after `close` reports `clean_mount == true`.
pub proof fn lemma_mount_cleanliness(bs: u16, bc: u64)
    requires
        bs > MARKER_OFFSET,
    ensures
        superblock_bytes(bs, bc, false)[MARKER_OFFSET as int] == 0,
        superblock_bytes(bs, bc, true)[MARKER_OFFSET as int] == 1,
{
}

} // verus!
