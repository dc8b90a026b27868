//! A fixed-geometry block device held as one contiguous in-memory byte
//! image. The image is the exact on-disk layout: callers that back the
//! device with a file load the file's bytes into `open` and store the bytes
//! handed back by `into_storage`. Every read and write addresses exactly one
//! block of `block_size` bytes at offset `block_number * block_size`.

use vstd::prelude::*;

use crate::block_number::{
    u16_from_le, u16_le, u64_from_le, u64_le, read_u16_le, read_u64_le, push_u16_le, push_u64_le,
    BlockNumber,
};

verus! {

/// The error kinds of the storage engine. The in-memory image cannot fail at
/// the byte level, so there is no I/O-failure variant; a file-backed caller
/// surfaces its own I/O errors before the image reaches the library.
#[derive(Clone, Copy, PartialEq, Eq, Structural, Debug)]
pub enum Error {
    /// A block number at or past the end of the device.
    OutOfRange,
    /// A cached block accessed under the wrong entry variant.
    CacheInvalid,
    /// An image whose bytes recover no consistent geometry.
    Geometry,
    /// Geometry parameters below the allowed minimum.
    Configuration,
}

/// Device geometry: the size of one block in bytes and the number of blocks.
#[derive(Clone, Copy, PartialEq, Eq, Structural, Debug)]
pub struct Config {
    pub block_size: u16,
    pub block_count: u64,
}

/// Bytes at the front of block 0 that hold the geometry: two little-endian
/// bytes of `block_size`, then eight of `block_count`. Byte 10 is the
/// clean-shutdown marker, written by the filesystem layer.
pub const GEOMETRY_BYTES: u16 = 11;

/// The block size used when `create` is given none.
pub const DEFAULT_BLOCK_SIZE: u16 = 512;

/// The geometry header as it stands at the front of block 0.
pub open spec fn geometry_bytes(block_size: u16, block_count: u64) -> Seq<u8> {
    u16_le(block_size) + u64_le(block_count)
}

/// The block size `create` settles on: the given one, or the default.
pub open spec fn chosen_block_size(block_size: Option<u16>) -> u16 {
    match block_size {
        Some(b) => b,
        None => DEFAULT_BLOCK_SIZE,
    }
}

#[derive(Debug)]
pub struct BlockDevice {
    /// The byte image. Public so that specifications can speak of it; exec
    /// callers go through `read` and `write`, which keep `wf`.
    pub storage: Vec<u8>,
    pub config: Config,
}

impl BlockDevice {
    /// The whole byte image of the device.
    pub open spec fn contents(self) -> Seq<u8> {
        self.storage@
    }

    pub open spec fn block_size_spec(self) -> int {
        self.config.block_size as int
    }

    pub open spec fn block_count_spec(self) -> int {
        self.config.block_count as int
    }

    /// The byte image of block `bn`.
    pub open spec fn block_at(self, bn: int) -> Seq<u8> {
        self.contents().subrange(bn * self.block_size_spec(), (bn + 1) * self.block_size_spec())
    }

    pub open spec fn wf(self) -> bool {
        &&& self.config.block_size >= GEOMETRY_BYTES
        &&& self.config.block_count >= 1
        &&& self.contents().len() == self.block_count_spec() * self.block_size_spec()
    }

    /// Makes a device of `block_count` zeroed blocks with the geometry
    /// header written into block 0, so a later `open` of the image recovers
    /// the same geometry. Fails with `Configuration` when `block_count` is
    /// zero or the block size cannot even hold the header.
    pub fn create(block_count: u64, block_size: Option<u16>) -> (r: Result<BlockDevice, Error>)
        requires
            block_count * chosen_block_size(block_size) <= usize::MAX,
        ensures
            match r {
                Ok(d) => {
                    &&& block_count >= 1
                    &&& chosen_block_size(block_size) >= GEOMETRY_BYTES
                    &&& d.wf()
                    &&& d.config.block_size == chosen_block_size(block_size)
                    &&& d.config.block_count == block_count
                    &&& d.contents() == geometry_bytes(d.config.block_size, block_count)
                        + Seq::new((d.block_count_spec() * d.block_size_spec() - 10) as nat, |i: int| 0u8)
                },
                Err(e) => {
                    &&& e == Error::Configuration
                    &&& (block_count < 1 || chosen_block_size(block_size) < GEOMETRY_BYTES)
                },
            },
    {
        let bs: u16 = match block_size {
            Some(b) => b,
            None => DEFAULT_BLOCK_SIZE,
        };
        if block_count < 1 || bs < GEOMETRY_BYTES {
            return Err(Error::Configuration);
        }
        proof {
            lemma_le_of_mul_le(block_count as int, bs as int, usize::MAX as int);
            assert(block_count * bs >= 11) by (nonlinear_arith)
                requires
                    block_count >= 1,
                    bs >= 11,
            ;
        }
        let total: usize = (block_count as usize) * (bs as usize);
        let mut storage: Vec<u8> = Vec::new();
        push_u16_le(&mut storage, bs);
        push_u64_le(&mut storage, block_count);
        while storage.len() < total
            invariant
                10 <= storage.len() <= total,
                total >= 11,
                storage@ == geometry_bytes(bs, block_count) + Seq::new(
                    (storage.len() - 10) as nat,
                    |i: int| 0u8,
                ),
            decreases total - storage.len(),
    {
            storage.push(0u8);
            assert(storage@ =~= geometry_bytes(bs, block_count) + Seq::new(
                (storage.len() - 10) as nat,
                |i: int| 0u8,
            ));
        }
        Ok(BlockDevice { storage, config: Config { block_size: bs, block_count } })
    }

    /// Attaches to an existing byte image, recovering the geometry from the
    /// header in block 0. Fails with `Geometry` when the image is too short
    /// to hold a header, the header values are impossible, or the image's
    /// length does not match them.
    pub fn open(storage: Vec<u8>) -> (r: Result<BlockDevice, Error>)
        ensures
            match r {
                Ok(d) => {
                    &&& d.wf()
                    &&& d.contents() == storage@
                    &&& storage.len() >= 10
                    &&& d.config.block_size == u16_from_le(storage@.subrange(0, 2))
                    &&& d.config.block_count == u64_from_le(storage@.subrange(2, 10))
                },
                Err(e) => {
                    &&& e == Error::Geometry
                    &&& (storage.len() < 10 || u16_from_le(storage@.subrange(0, 2))
                        < GEOMETRY_BYTES || u64_from_le(storage@.subrange(2, 10)) < 1
                        || storage.len() != u64_from_le(storage@.subrange(2, 10))
                        * u16_from_le(storage@.subrange(0, 2)))
                },
            },
    {
        if storage.len() < 10 {
            return Err(Error::Geometry);
        }
        let bs = read_u16_le(&storage, 0);
        let bc = read_u64_le(&storage, 2);
        if bs < GEOMETRY_BYTES || bc < 1 {
            return Err(Error::Geometry);
        }
        proof {
            assert((bc as int) * (bs as int) <= 0xffff_ffff_ffff_ffff * 0xffff)
                by (nonlinear_arith)
                requires
                    bc <= 0xffff_ffff_ffff_ffffu64,
                    bs <= 0xffffu16,
            ;
        }
        let wide: u128 = (bc as u128) * (bs as u128);
        if wide > (usize::MAX as u128) {
            return Err(Error::Geometry);
        }
        let total: usize = wide as usize;
        if storage.len() != total {
            return Err(Error::Geometry);
        }
        Ok(BlockDevice { storage, config: Config { block_size: bs, block_count: bc } })
    }

    /// Copies block `bn` into `buffer`, whose length must be one block.
    /// Fails with `OutOfRange`, leaving the buffer as it was, when `bn` is
    /// past the last block.
    pub fn read(&self, bn: BlockNumber, buffer: &mut Vec<u8>) -> (r: Result<(), Error>)
        requires
            self.wf(),
            old(buffer).len() == self.config.block_size,
        ensures
            match r {
                Ok(()) => {
                    &&& bn.0 < self.config.block_count
                    &&& final(buffer)@ == self.block_at(bn.0 as int)
                },
                Err(e) => {
                    &&& e == Error::OutOfRange
                    &&& bn.0 >= self.config.block_count
                    &&& final(buffer)@ == old(buffer)@
                },
            },
    {
        if bn.0 >= self.config.block_count {
            return Err(Error::OutOfRange);
        }
        let bs = self.config.block_size as usize;
        let n = self.storage.len();
        proof {
            lemma_block_offset_in_range(
                bn.0 as int,
                self.block_count_spec(),
                self.block_size_spec(),
            );
            lemma_le_of_mul_le(bn.0 as int, bs as int, n as int);
        }
        let off: usize = (bn.0 as usize) * bs;
        let mut i: usize = 0;
        while i < bs
            invariant
                i <= bs,
                bs == self.config.block_size,
                off == bn.0 * bs,
                off + bs == (bn.0 + 1) * self.block_size_spec(),
                self.wf(),
                bn.0 < self.config.block_count,
                n == self.contents().len(),
                off + bs <= n,
                buffer.len() == bs,
                buffer@.take(i as int) == self.block_at(bn.0 as int).take(i as int),
            decreases bs - i,
        {
            buffer[i] = self.storage[off + i];
            assert(buffer@.take(i + 1) =~= self.block_at(bn.0 as int).take(i + 1));
            i = i + 1;
        }
        proof {
            assert(buffer@.take(bs as int) =~= buffer@);
            assert(self.block_at(bn.0 as int).take(bs as int) =~= self.block_at(bn.0 as int));
        }
        Ok(())
    }

    /// Overwrites block `bn` with `buffer`, whose length must be one block.
    /// Fails with `OutOfRange`, leaving the device as it was, when `bn` is
    /// past the last block.
    pub fn write(&mut self, bn: BlockNumber, buffer: &Vec<u8>) -> (r: Result<(), Error>)
        requires
            old(self).wf(),
            buffer.len() == old(self).config.block_size,
        ensures
            final(self).config == old(self).config,
            final(self).wf(),
            match r {
                Ok(()) => {
                    &&& bn.0 < old(self).config.block_count
                    &&& final(self).contents() == write_block(
                        old(self).contents(),
                        bn.0 as int,
                        old(self).block_size_spec(),
                        buffer@,
                    )
                },
                Err(e) => {
                    &&& e == Error::OutOfRange
                    &&& bn.0 >= old(self).config.block_count
                    &&& final(self).contents() == old(self).contents()
                },
            },
    {
        if bn.0 >= self.config.block_count {
            return Err(Error::OutOfRange);
        }
        let bs = self.config.block_size as usize;
        let n = self.storage.len();
        proof {
            lemma_block_offset_in_range(
                bn.0 as int,
                self.block_count_spec(),
                self.block_size_spec(),
            );
            lemma_le_of_mul_le(bn.0 as int, bs as int, n as int);
        }
        let off: usize = (bn.0 as usize) * bs;
        let mut i: usize = 0;
        while i < bs
            invariant
                i <= bs,
                bs == self.config.block_size,
                self.config == old(self).config,
                off == bn.0 * bs,
                off + bs == (bn.0 + 1) * self.block_size_spec(),
                bn.0 < self.config.block_count,
                n == self.contents().len(),
                off + bs <= n,
                self.contents().len() == old(self).contents().len(),
                buffer.len() == bs,
                self.contents() == old(self).contents().take(off as int) + buffer@.take(i as int)
                    + old(self).contents().skip(off + i),
            decreases bs - i,
    {
            self.storage[off + i] = buffer[i];
            assert(self.contents() =~= old(self).contents().take(off as int) + buffer@.take(i + 1)
                + old(self).contents().skip(off + i + 1));
            i = i + 1;
        }
        proof {
            assert(buffer@.take(bs as int) =~= buffer@);
            assert(self.contents() =~= write_block(
                old(self).contents(),
                bn.0 as int,
                old(self).block_size_spec(),
                buffer@,
            ));
        }
        Ok(())
    }

    /// Gives the byte image up, for a caller that persists it.
    pub fn into_storage(self) -> (r: Vec<u8>)
        ensures
            r@ == self.contents(),
    {
        self.storage
    }
}

/// A factor is no larger than a product it divides into a bound.
pub proof fn lemma_le_of_mul_le(a: int, b: int, c: int)
    requires
        0 <= a,
        1 <= b,
        a * b <= c,
    ensures
        a <= c,
{
    assert(a <= a * b) by (nonlinear_arith)
        requires
            0 <= a,
            1 <= b,
    ;
}

/// The device image after block `bn` of size `bs` is overwritten with `b`.
pub open spec fn write_block(c: Seq<u8>, bn: int, bs: int, b: Seq<u8>) -> Seq<u8> {
    c.take(bn * bs) + b + c.skip((bn + 1) * bs)
}

/// A block that starts inside the device also ends inside it.
pub proof fn lemma_block_offset_in_range(bn: int, bc: int, bs: int)
    requires
        0 <= bn < bc,
        bs >= 0,
    ensures
        (bn + 1) * bs <= bc * bs,
        bn * bs + bs == (bn + 1) * bs,
        bn * bs >= 0,
{
    assert((bn + 1) * bs <= bc * bs && bn * bs + bs == (bn + 1) * bs && bn * bs >= 0)
        by (nonlinear_arith)
        requires
            0 <= bn < bc,
            bs >= 0,
    ;
}

/// After one block is overwritten, reading any block sees the new image
/// there and the old image everywhere else.
pub proof fn lemma_write_block_at(d0: BlockDevice, d1: BlockDevice, bn: int, b: Seq<u8>)
    requires
        d0.wf(),
        d1.config == d0.config,
        0 <= bn < d0.block_count_spec(),
        b.len() == d0.block_size_spec(),
        d1.contents() == write_block(d0.contents(), bn, d0.block_size_spec(), b),
    ensures
        d1.wf(),
        d1.block_at(bn) == b,
        forall|k: int|
            0 <= k < d0.block_count_spec() && k != bn ==> d1.block_at(k) == d0.block_at(k),
{
    let bs = d0.block_size_spec();
    let bc = d0.block_count_spec();
    lemma_block_offset_in_range(bn, bc, bs);
    assert(d1.contents().len() == bc * bs);
    assert(d1.block_at(bn) =~= b);
    assert forall|k: int| 0 <= k < bc && k != bn implies d1.block_at(k) == d0.block_at(k) by {
        lemma_block_offset_in_range(k, bc, bs);
        assert(k * bs + bs <= bn * bs || k * bs >= bn * bs + bs) by (nonlinear_arith)
            requires
                0 <= k,
                0 <= bn,
                k != bn,
                bs >= 0,
        {
            if k < bn {
                assert((k + 1) * bs <= bn * bs);
            } else {
                assert((bn + 1) * bs <= k * bs);
            }
        }
        assert(d1.block_at(k) =~= d0.block_at(k));
    }
}

} // verus!
