//! Block numbers and the fixed-width little-endian codec that turns a
//! sequence of them into the byte image of one device block.

use vstd::prelude::*;

verus! {

/// Index of one fixed-size block on a device. Block numbers are plain
/// non-negative integers; block 0 always holds the superblock, so indirect
/// structures that need a "no block" sentinel use 0 for it (never a data
/// block).
#[derive(Clone, Copy, PartialEq, Eq, Structural, Hash, Debug)]
pub struct BlockNumber(pub u64);

impl BlockNumber {
    pub fn new(value: u64) -> (r: BlockNumber)
        ensures
            r.0 == value,
    {
        BlockNumber(value)
    }

    pub fn value(&self) -> (r: u64)
        ensures
            r == self.0,
    {
        self.0
    }
}

/// The values carried by a sequence of block numbers.
pub open spec fn ptr_values(s: Seq<BlockNumber>) -> Seq<u64> {
    s.map_values(|p: BlockNumber| p.0)
}

/// The eight little-endian bytes of `v`.
pub open spec fn u64_le(v: u64) -> Seq<u8> {
    seq![
        (v & 0xff) as u8,
        ((v >> 8) & 0xff) as u8,
        ((v >> 16) & 0xff) as u8,
        ((v >> 24) & 0xff) as u8,
        ((v >> 32) & 0xff) as u8,
        ((v >> 40) & 0xff) as u8,
        ((v >> 48) & 0xff) as u8,
        ((v >> 56) & 0xff) as u8,
    ]
}

/// The value read from eight little-endian bytes.
pub open spec fn u64_from_le(b: Seq<u8>) -> u64
    recommends
        b.len() == 8,
{
    ((b[0] as u64) | ((b[1] as u64) << 8) | ((b[2] as u64) << 16) | ((b[3] as u64) << 24)
        | ((b[4] as u64) << 32) | ((b[5] as u64) << 40) | ((b[6] as u64) << 48)
        | ((b[7] as u64) << 56)) as u64
}

/// The two little-endian bytes of `v`.
pub open spec fn u16_le(v: u16) -> Seq<u8> {
    seq![(v & 0xff) as u8, ((v >> 8) & 0xff) as u8]
}

/// The value read from two little-endian bytes.
pub open spec fn u16_from_le(b: Seq<u8>) -> u16
    recommends
        b.len() == 2,
{
    ((b[0] as u16) | ((b[1] as u16) << 8)) as u16
}

/// Decoding the eight little-endian bytes of a value gives the value back.
pub proof fn lemma_u64_le_round_trip(v: u64)
    ensures
        u64_from_le(u64_le(v)) == v,
{
    assert((((v & 0xff) as u8) as u64 | ((((v >> 8) & 0xff) as u8) as u64) << 8
        | ((((v >> 16) & 0xff) as u8) as u64) << 16 | ((((v >> 24) & 0xff) as u8) as u64) << 24
        | ((((v >> 32) & 0xff) as u8) as u64) << 32 | ((((v >> 40) & 0xff) as u8) as u64) << 40
        | ((((v >> 48) & 0xff) as u8) as u64) << 48 | ((((v >> 56) & 0xff) as u8) as u64) << 56)
        == v) by (bit_vector);
}

/// Decoding the two little-endian bytes of a value gives the value back.
pub proof fn lemma_u16_le_round_trip(v: u16)
    ensures
        u16_from_le(u16_le(v)) == v,
{
    assert((((v & 0xff) as u8) as u16 | ((((v >> 8) & 0xff) as u8) as u16) << 8) == v)
        by (bit_vector);
}

/// The byte image of a sequence of block-number values: each value takes
/// eight little-endian bytes, in sequence order.
pub open spec fn pointers_bytes(ps: Seq<u64>) -> Seq<u8>
    decreases ps.len(),
{
    if ps.len() == 0 {
        Seq::empty()
    } else {
        u64_le(ps[0]) + pointers_bytes(ps.skip(1))
    }
}

/// The block-number values read from a byte image, eight bytes at a time.
/// A trailing fragment shorter than eight bytes yields no value; callers
/// only apply this to images whose length is a multiple of eight.
pub open spec fn bytes_pointers(b: Seq<u8>) -> Seq<u64>
    decreases b.len(),
{
    if b.len() < 8 {
        Seq::empty()
    } else {
        seq![u64_from_le(b.take(8))] + bytes_pointers(b.skip(8))
    }
}

pub proof fn lemma_pointers_bytes_len(ps: Seq<u64>)
    ensures
        pointers_bytes(ps).len() == 8 * ps.len(),
    decreases ps.len(),
{
    if ps.len() > 0 {
        lemma_pointers_bytes_len(ps.skip(1));
    }
}

/// Appending one value to a pointer sequence appends its eight bytes to the
/// byte image.
pub proof fn lemma_pointers_bytes_push(ps: Seq<u64>, v: u64)
    ensures
        pointers_bytes(ps.push(v)) == pointers_bytes(ps) + u64_le(v),
    decreases ps.len(),
{
    if ps.len() == 0 {
        let q = ps.push(v);
        assert(q.len() == 1 && q[0] == v);
        assert(q.skip(1) =~= Seq::<u64>::empty());
        assert(pointers_bytes(q) == u64_le(v) + pointers_bytes(Seq::<u64>::empty()));
        assert(pointers_bytes(q) =~= pointers_bytes(ps) + u64_le(v));
    } else {
        assert(ps.push(v).skip(1) =~= ps.skip(1).push(v));
        lemma_pointers_bytes_push(ps.skip(1), v);
        assert(pointers_bytes(ps.push(v)) =~= pointers_bytes(ps) + u64_le(v));
    }
}

/// Decoding an image made of whole eight-byte groups proceeds group by group.
pub proof fn lemma_bytes_pointers_append(b: Seq<u8>, t: Seq<u8>)
    requires
        b.len() % 8 == 0,
    ensures
        bytes_pointers(b + t) == bytes_pointers(b) + bytes_pointers(t),
    decreases b.len(),
{
    if b.len() == 0 {
        assert(b + t =~= t);
        assert(bytes_pointers(b + t) =~= bytes_pointers(b) + bytes_pointers(t));
    } else {
        assert((b + t).take(8) =~= b.take(8));
        assert((b + t).skip(8) =~= b.skip(8) + t);
        lemma_bytes_pointers_append(b.skip(8), t);
        assert(bytes_pointers(b + t) =~= bytes_pointers(b) + bytes_pointers(t));
    }
}

/// Law: the pointer codec round-trips. Any sequence of block-number values,
/// encoded to its byte image and decoded again, comes back element for
/// element. Together with the contracts of `Cache::write_pointers`,
/// `Cache::write_all` and `Cache::read_pointers` this says that pointers
/// written through the cache, flushed to the device, and read back through a
/// fresh cache are the original sequence.
pub proof fn lemma_pointers_round_trip(ps: Seq<u64>)
    ensures
        bytes_pointers(pointers_bytes(ps)) == ps,
    decreases ps.len(),
{
    if ps.len() == 0 {
    } else {
        let img = pointers_bytes(ps);
        lemma_pointers_bytes_len(ps.skip(1));
        assert(img.take(8) =~= u64_le(ps[0]));
        assert(img.skip(8) =~= pointers_bytes(ps.skip(1)));
        lemma_u64_le_round_trip(ps[0]);
        lemma_pointers_round_trip(ps.skip(1));
        assert(bytes_pointers(img) =~= ps);
    }
}

/// Reads the eight-byte little-endian value at `off`.
pub fn read_u64_le(b: &Vec<u8>, off: usize) -> (r: u64)
    requires
        off + 8 <= b.len(),
    ensures
        r == u64_from_le(b@.subrange(off as int, off as int + 8)),
{
    let ghost g = b@.subrange(off as int, off as int + 8);
    let r = (b[off] as u64) | ((b[off + 1] as u64) << 8) | ((b[off + 2] as u64) << 16) | ((b[off
        + 3] as u64) << 24) | ((b[off + 4] as u64) << 32) | ((b[off + 5] as u64) << 40) | ((b[off
        + 6] as u64) << 48) | ((b[off + 7] as u64) << 56);
    assert(g[0] == b@[off as int] && g[1] == b@[off as int + 1] && g[2] == b@[off as int + 2]
        && g[3] == b@[off as int + 3] && g[4] == b@[off as int + 4] && g[5] == b@[off as int + 5]
        && g[6] == b@[off as int + 6] && g[7] == b@[off as int + 7]);
    r
}

/// Reads the two-byte little-endian value at `off`.
pub fn read_u16_le(b: &Vec<u8>, off: usize) -> (r: u16)
    requires
        off + 2 <= b.len(),
    ensures
        r == u16_from_le(b@.subrange(off as int, off as int + 2)),
{
    let ghost g = b@.subrange(off as int, off as int + 2);
    let r = (b[off] as u16) | ((b[off + 1] as u16) << 8);
    assert(g[0] == b@[off as int] && g[1] == b@[off as int + 1]);
    r
}

/// Appends the eight little-endian bytes of `v` to `out`.
pub fn push_u64_le(out: &mut Vec<u8>, v: u64)
    ensures
        final(out)@ == old(out)@ + u64_le(v),
{
    out.push((v & 0xff) as u8);
    out.push(((v >> 8) & 0xff) as u8);
    out.push(((v >> 16) & 0xff) as u8);
    out.push(((v >> 24) & 0xff) as u8);
    out.push(((v >> 32) & 0xff) as u8);
    out.push(((v >> 40) & 0xff) as u8);
    out.push(((v >> 48) & 0xff) as u8);
    out.push(((v >> 56) & 0xff) as u8);
    assert(out@ =~= old(out)@ + u64_le(v));
}

/// Appends the two little-endian bytes of `v` to `out`.
pub fn push_u16_le(out: &mut Vec<u8>, v: u16)
    ensures
        final(out)@ == old(out)@ + u16_le(v),
{
    out.push((v & 0xff) as u8);
    out.push(((v >> 8) & 0xff) as u8);
    assert(out@ =~= old(out)@ + u16_le(v));
}

/// Encodes a sequence of block numbers as the byte image a pointer block
/// carries on disk: eight little-endian bytes per number, in order.
pub fn encode_pointers(ps: &Vec<BlockNumber>) -> (r: Vec<u8>)
    requires
        ps.len() * 8 <= usize::MAX,
    ensures
        r@ == pointers_bytes(ptr_values(ps@)),
        r.len() == ps.len() * 8,
{
    let mut out: Vec<u8> = Vec::new();
    let mut i: usize = 0;
    proof {
        assert(ptr_values(ps@.take(0)) =~= Seq::<u64>::empty());
    }
    while i < ps.len()
        invariant
            i <= ps.len(),
            ps.len() * 8 <= usize::MAX,
            out@ == pointers_bytes(ptr_values(ps@.take(i as int))),
            out.len() == i * 8,
        decreases ps.len() - i,
    {
        proof {
            assert(ptr_values(ps@.take(i + 1)) =~= ptr_values(ps@.take(i as int)).push(
                ps@[i as int].0));
            lemma_pointers_bytes_push(ptr_values(ps@.take(i as int)), ps@[i as int].0);
        }
        push_u64_le(&mut out, ps[i].0);
        i = i + 1;
    }
    proof {
        assert(ps@.take(ps.len() as int) =~= ps@);
    }
    out
}

/// Decodes a byte image into the block numbers it carries. The image's
/// length must be a whole number of eight-byte groups: a block whose size
/// does not divide into block numbers is a format error the caller rejects
/// before decoding.
pub fn decode_pointers(b: &Vec<u8>) -> (r: Vec<BlockNumber>)
    requires
        b.len() % 8 == 0,
    ensures
        ptr_values(r@) == bytes_pointers(b@),
        r.len() * 8 == b.len(),
{
    let mut out: Vec<BlockNumber> = Vec::new();
    let mut i: usize = 0;
    proof {
        assert(bytes_pointers(b@.take(0)) =~= Seq::<u64>::empty());
        assert(ptr_values(out@) =~= Seq::<u64>::empty());
    }
    while i < b.len()
        invariant
            i <= b.len(),
            i % 8 == 0,
            b.len() % 8 == 0,
            ptr_values(out@) == bytes_pointers(b@.take(i as int)),
            out.len() * 8 == i,
        decreases b.len() - i,
    {
        assert(i + 8 <= b.len());
        let v = read_u64_le(b, i);
        out.push(BlockNumber(v));
        proof {
            let pre = b@.take(i as int);
            let grp = b@.subrange(i as int, i as int + 8);
            lemma_bytes_pointers_append(pre, grp);
            assert(pre + grp =~= b@.take(i + 8));
            assert(grp.len() == 8);
            assert(grp.take(8) =~= grp);
            assert(grp.skip(8) =~= Seq::<u8>::empty());
            assert(bytes_pointers(grp) == seq![u64_from_le(grp.take(8))] + bytes_pointers(
                grp.skip(8)));
            assert(bytes_pointers(grp) =~= seq![u64_from_le(grp)]);
            assert(ptr_values(out@) =~= bytes_pointers(b@.take(i + 8)));
        }
        i = i + 8;
    }
    proof {
        assert(b@.take(b.len() as int) =~= b@);
    }
    out
}

} // verus!
