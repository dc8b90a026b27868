//! Bitmap allocators: one bit of state per block for the block map, one
//! allocation mark plus a flags byte per slot for the inode map. Both scan
//! for the lowest free slot, so allocation order is deterministic. On disk
//! each slot takes whole bytes inside the maps' reserved blocks; the byte
//! offsets are fixed here and read back identically at mount.

use vstd::prelude::*;

use crate::block_number::BlockNumber;

verus! {

/// Failure of a block allocation.
#[derive(Clone, Copy, PartialEq, Eq, Structural, Debug)]
pub enum AllocError {
    /// Every block is allocated; nothing short of freeing one helps.
    Exhausted,
}

/// The type/attribute byte stored with a live inode.
#[derive(Clone, Copy, PartialEq, Eq, Structural, Debug)]
pub struct INodeFlags(pub u8);

/// A bitmap allocator over the device's block address space. `slots[i]` is
/// 1 when block `i` is owned by some live structure, 0 when it is free; the
/// first `reserved` blocks hold the superblock and the maps themselves and
/// stay allocated for the life of the filesystem.
#[derive(Debug)]
pub struct BlockMap {
    /// One byte per block, each 0 or 1. Public so that specifications can
    /// speak of it; exec callers go through the methods, which keep `wf`.
    pub slots: Vec<u8>,
    pub reserved: usize,
}

/// Is `b` the lowest free slot of `s`?
pub open spec fn first_free(s: Seq<u8>, b: int) -> bool {
    &&& 0 <= b < s.len()
    &&& s[b] == 0
    &&& forall|j: int| 0 <= j < b ==> s[j] != 0
}

impl BlockMap {
    pub open spec fn wf(self) -> bool {
        &&& self.reserved <= self.slots.len()
        &&& forall|i: int| 0 <= i < self.slots@.len() ==> (#[trigger] self.slots@[i]) == 0
            || self.slots@[i] == 1
        &&& forall|i: int| 0 <= i < self.reserved ==> (#[trigger] self.slots@[i]) == 1
    }

    pub open spec fn allocated(self, i: int) -> bool {
        self.slots@[i] == 1
    }

    /// A fresh map over `block_count` blocks with the first `reserved`
    /// marked allocated, the rest free.
    pub fn new(block_count: usize, reserved: usize) -> (r: BlockMap)
        requires
            reserved <= block_count,
        ensures
            r.wf(),
            r.slots.len() == block_count,
            r.reserved == reserved,
            forall|i: int| 0 <= i < block_count ==> (r.allocated(i) <==> i < reserved),
    {
        let mut slots: Vec<u8> = Vec::new();
        while slots.len() < block_count
            invariant
                slots.len() <= block_count,
                forall|i: int| 0 <= i < slots@.len() ==> (#[trigger] slots@[i]) == (
                    if i < reserved { 1u8 } else { 0u8 }),
            decreases block_count - slots.len(),
        {
            if slots.len() < reserved {
                slots.push(1u8);
            } else {
                slots.push(0u8);
            }
        }
        BlockMap { slots, reserved }
    }

    /// How many blocks the map covers.
    pub fn block_count(&self) -> (r: usize)
        ensures
            r == self.slots.len(),
    {
        self.slots.len()
    }

    /// Is block `bn` currently allocated?
    pub fn is_allocated(&self, bn: BlockNumber) -> (r: bool)
        requires
            bn.0 < self.slots.len(),
        ensures
            r == self.allocated(bn.0 as int),
    {
        self.slots[bn.0 as usize] == 1
    }

    /// Allocates the lowest-numbered free block: marks it and returns its
    /// number. Fails with `Exhausted`, changing nothing, exactly when every
    /// block is allocated. A returned block is never in the reserved region,
    /// since the reserved region is always allocated.
    pub fn allocate(&mut self) -> (r: Result<BlockNumber, AllocError>)
        requires
            old(self).wf(),
        ensures
            final(self).wf(),
            final(self).reserved == old(self).reserved,
            final(self).slots.len() == old(self).slots.len(),
            match r {
                Ok(bn) => {
                    &&& first_free(old(self).slots@, bn.0 as int)
                    &&& bn.0 >= old(self).reserved
                    &&& final(self).slots@ == old(self).slots@.update(bn.0 as int, 1u8)
                },
                Err(e) => {
                    &&& e == AllocError::Exhausted
                    &&& forall|j: int|
                        0 <= j < old(self).slots@.len() ==> (#[trigger] old(self).slots@[j]) != 0
                    &&& final(self).slots@ == old(self).slots@
                },
            },
    {
        let mut i: usize = 0;
        while i < self.slots.len()
            invariant
                self == old(self),
                old(self).wf(),
                i <= self.slots.len(),
                forall|j: int| 0 <= j < i ==> (#[trigger] self.slots@[j]) != 0,
            decreases self.slots.len() - i,
        {
            if self.slots[i] == 0 {
                self.slots[i] = 1u8;
                return Ok(BlockNumber(i as u64));
            }
            i = i + 1;
        }
        Err(AllocError::Exhausted)
    }


    /// Rebuilds a map of `block_count` blocks from its on-disk bytes, one
    /// byte per block. Any nonzero byte counts as allocated, and the
    /// reserved region is forced allocated, so a corrupted image still
    /// decodes to a well-formed map.
    pub fn decode(bytes: &Vec<u8>, block_count: usize, reserved: usize) -> (r: BlockMap)
        requires
            reserved <= block_count,
            block_count <= bytes.len(),
        ensures
            r.wf(),
            r.slots.len() == block_count,
            r.reserved == reserved,
            forall|i: int|
                0 <= i < block_count ==> (r.allocated(i) <==> (i < reserved || bytes@[i] != 0)),
    {
        let mut slots: Vec<u8> = Vec::new();
        let mut i: usize = 0;
        while i < block_count
            invariant
                i <= block_count,
                block_count <= bytes.len(),
                slots.len() == i,
                forall|t: int|
                    0 <= t < i ==> (#[trigger] slots@[t]) == (if t < reserved || bytes@[t] != 0 {
                        1u8
                    } else {
                        0u8
                    }),
            decreases block_count - i,
        {
            if i < reserved || bytes[i] != 0 {
                slots.push(1u8);
            } else {
                slots.push(0u8);
            }
            i = i + 1;
        }
        BlockMap { slots, reserved }
    }

    /// Frees block `bn`: clears its mark. Freeing an already-free block is
    /// a no-op, as is freeing a block outside the map; the reserved region
    /// is refused so the maps' own storage stays marked for the life of the
    /// filesystem.
    pub fn free(&mut self, bn: BlockNumber)
        requires
            old(self).wf(),
        ensures
            final(self).wf(),
            final(self).reserved == old(self).reserved,
            final(self).slots@ == free_result(old(self).slots@, bn.0 as int, old(self).reserved as int),
    {
        if bn.0 >= (self.reserved as u64) && bn.0 < (self.slots.len() as u64) {
            self.slots[bn.0 as usize] = 0u8;
        } else {
            proof {
                assert(final(self).slots@ =~= old(self).slots@);
            }
        }
    }
}

/// The slot state after one `free` of `b` on a map whose first `reserved`
/// slots are permanent.
pub open spec fn free_result(s: Seq<u8>, b: int, reserved: int) -> Seq<u8> {
    if reserved <= b < s.len() {
        s.update(b, 0u8)
    } else {
        s
    }
}

/// One allocation step of the bitmap allocator: from slots `s` to slots
/// `t`, returning block `b`.
pub open spec fn alloc_step(s: Seq<u8>, t: Seq<u8>, b: int) -> bool {
    &&& first_free(s, b)
    &&& t == s.update(b, 1u8)
}

/// Law: with no interleaved frees, consecutive allocations return strictly
/// increasing block numbers, so any run of allocations returns pairwise
/// distinct blocks; and no returned block lies in the reserved region. The
/// states are the slot sequences before, between and after the allocations,
/// each step as `alloc` guarantees it.
pub proof fn lemma_alloc_unique(states: Seq<Seq<u8>>, picks: Seq<int>, reserved: int)
    requires
        states.len() == picks.len() + 1,
        forall|k: int|
            0 <= k < picks.len() ==> alloc_step(#[trigger] states[k], states[k + 1], picks[k]),
        forall|i: int| 0 <= i < reserved && i < states[0].len() ==> (#[trigger] states[0][i]) != 0,
    ensures
        forall|k1: int, k2: int| 0 <= k1 < k2 < picks.len() ==> picks[k1] != picks[k2],
        forall|k: int| 0 <= k < picks.len() ==> #[trigger] picks[k] >= reserved,
    decreases picks.len(),
{
    if picks.len() > 0 {
        assert(alloc_step(states[0], states[1], picks[0]));
        assert(picks[0] >= reserved);
        // the tail run starts from states[1], whose reserved region is
        // still fully allocated
        assert(forall|i: int|
            0 <= i < reserved && i < states[1].len() ==> (#[trigger] states[1][i]) != 0);
        lemma_alloc_unique(states.skip(1), picks.skip(1), reserved);
        // each later pick is strictly above the one before it
        assert forall|k: int| 1 <= k < picks.len() implies #[trigger] picks[k] > picks[k - 1] by {
            assert(alloc_step(states[k - 1], states[k], picks[k - 1]));
            assert(alloc_step(states[k], states[k + 1], picks[k]));
            assert(states[k][picks[k - 1]] == 1);
            if picks[k] <= picks[k - 1] {
                if picks[k] < picks[k - 1] {
                    assert(states[k][picks[k]] == states[k - 1][picks[k]]);
                    assert(states[k - 1][picks[k]] != 0);
                }
                assert(false);
            }
        }
        assert forall|k1: int, k2: int| 0 <= k1 < k2 < picks.len() implies picks[k1]
            != picks[k2] by {
            lemma_picks_increase(states, picks, k1, k2);
        }
        assert forall|k: int| 0 <= k < picks.len() implies #[trigger] picks[k] >= reserved by {
            if k > 0 {
                assert(picks.skip(1)[k - 1] >= reserved);
            }
        }
    }
}

/// Helper for `lemma_alloc_unique`: picks grow strictly over any distance.
proof fn lemma_picks_increase(states: Seq<Seq<u8>>, picks: Seq<int>, k1: int, k2: int)
    requires
        states.len() == picks.len() + 1,
        forall|k: int|
            0 <= k < picks.len() ==> alloc_step(#[trigger] states[k], states[k + 1], picks[k]),
        0 <= k1 < k2 < picks.len(),
    ensures
        picks[k1] < picks[k2],
    decreases k2 - k1,
{
    assert(alloc_step(states[k2 - 1], states[k2], picks[k2 - 1]));
    assert(alloc_step(states[k2], states[k2 + 1], picks[k2]));
    assert(states[k2][picks[k2 - 1]] == 1);
    if picks[k2] <= picks[k2 - 1] {
        if picks[k2] < picks[k2 - 1] {
            assert(states[k2][picks[k2]] == states[k2 - 1][picks[k2]]);
            assert(states[k2 - 1][picks[k2]] != 0);
        }
        assert(false);
    }
    if k1 < k2 - 1 {
        lemma_picks_increase(states, picks, k1, k2 - 1);
    }
}

/// Law: `free` is idempotent. Freeing a block twice leaves the map exactly
/// as freeing it once does; in particular freeing an already-free block
/// changes nothing.
pub proof fn lemma_free_idempotent(s: Seq<u8>, b: int, reserved: int)
    requires
        0 <= reserved,
    ensures
        free_result(free_result(s, b, reserved), b, reserved) == free_result(s, b, reserved),
{
    let once = free_result(s, b, reserved);
    if reserved <= b < s.len() {
        assert(once == s.update(b, 0u8));
        assert(once.len() == s.len());
        assert(free_result(once, b, reserved) == once.update(b, 0u8));
        assert(once.update(b, 0u8) =~= once);
    }
}

/// Law: a freed block is allocated again. When `b` was the allocated block
/// with every block below it also allocated, freeing `b` and allocating
/// once more returns `b` itself.
pub proof fn lemma_free_then_alloc_reuses(s: Seq<u8>, b: int, reserved: int)
    requires
        0 <= reserved <= b < s.len(),
        forall|j: int| 0 <= j < b ==> (#[trigger] s[j]) != 0,
    ensures
        first_free(free_result(s, b, reserved), b),
{
}


/// An allocator over inode slots: an allocation mark and a flags byte per
/// slot. A slot's flags are meaningful only while it is allocated; freeing
/// clears both.
#[derive(Debug)]
pub struct INodeMap {
    /// One byte per slot, each 0 or 1. Public so that specifications can
    /// speak of it; exec callers go through the methods, which keep `wf`.
    pub used: Vec<u8>,
    pub flags: Vec<u8>,
}

impl INodeMap {
    pub open spec fn wf(self) -> bool {
        &&& self.used.len() == self.flags.len()
        &&& forall|i: int| 0 <= i < self.used@.len() ==> (#[trigger] self.used@[i]) == 0
            || self.used@[i] == 1
        &&& forall|i: int| 0 <= i < self.used@.len() && self.used@[i] == 0 ==> (
        #[trigger] self.flags@[i]) == 0
    }

    pub open spec fn allocated(self, i: int) -> bool {
        self.used@[i] == 1
    }

    /// A fresh map of `slot_count` free slots.
    pub fn new(slot_count: usize) -> (r: INodeMap)
        ensures
            r.wf(),
            r.used.len() == slot_count,
            forall|i: int| 0 <= i < slot_count ==> !r.allocated(i),
    {
        let mut used: Vec<u8> = Vec::new();
        let mut flags: Vec<u8> = Vec::new();
        while used.len() < slot_count
            invariant
                used.len() <= slot_count,
                used.len() == flags.len(),
                forall|i: int| 0 <= i < used@.len() ==> (#[trigger] used@[i]) == 0,
                forall|i: int| 0 <= i < flags@.len() ==> (#[trigger] flags@[i]) == 0,
            decreases slot_count - used.len(),
        {
            used.push(0u8);
            flags.push(0u8);
        }
        INodeMap { used, flags }
    }

    /// How many inode slots the map covers.
    pub fn slot_count(&self) -> (r: usize)
        ensures
            r == self.used.len(),
    {
        self.used.len()
    }

    /// Is slot `n` currently allocated?
    pub fn is_allocated(&self, n: BlockNumber) -> (r: bool)
        requires
            n.0 < self.used.len(),
        ensures
            r == self.allocated(n.0 as int),
    {
        self.used[n.0 as usize] == 1
    }

    /// The flags of slot `n`, while it is allocated.
    pub fn flags_of(&self, n: BlockNumber) -> (r: Option<INodeFlags>)
        requires
            self.wf(),
            n.0 < self.used.len(),
        ensures
            match r {
                Some(f) => self.allocated(n.0 as int) && f.0 == self.flags@[n.0 as int],
                None => !self.allocated(n.0 as int),
            },
    {
        if self.used[n.0 as usize] == 1 {
            Some(INodeFlags(self.flags[n.0 as usize]))
        } else {
            None
        }
    }

    /// Allocates the lowest-numbered free slot, storing `f` as its flags,
    /// and returns its number. Returns nothing, changing nothing, exactly
    /// when every slot is allocated: exhaustion, recoverable only by
    /// freeing a slot or growing the device.
    pub fn allocate(&mut self, f: INodeFlags) -> (r: Option<BlockNumber>)
        requires
            old(self).wf(),
        ensures
            final(self).wf(),
            final(self).used.len() == old(self).used.len(),
            match r {
                Some(n) => {
                    &&& first_free(old(self).used@, n.0 as int)
                    &&& final(self).used@ == old(self).used@.update(n.0 as int, 1u8)
                    &&& final(self).flags@ == old(self).flags@.update(n.0 as int, f.0)
                },
                None => {
                    &&& forall|j: int|
                        0 <= j < old(self).used@.len() ==> (#[trigger] old(self).used@[j]) != 0
                    &&& final(self).used@ == old(self).used@
                    &&& final(self).flags@ == old(self).flags@
                },
            },
    {
        let mut i: usize = 0;
        while i < self.used.len()
            invariant
                self == old(self),
                old(self).wf(),
                i <= self.used.len(),
                forall|j: int| 0 <= j < i ==> (#[trigger] self.used@[j]) != 0,
            decreases self.used.len() - i,
        {
            if self.used[i] == 0 {
                self.used[i] = 1u8;
                self.flags[i] = f.0;
                return Some(BlockNumber(i as u64));
            }
            i = i + 1;
        }
        None
    }

    /// Frees slot `n`: clears its mark and its flags. Freeing an
    /// already-free slot, or one outside the map, is a no-op.
    pub fn free(&mut self, n: BlockNumber)
        requires
            old(self).wf(),
        ensures
            final(self).wf(),
            final(self).used.len() == old(self).used.len(),
            final(self).used@ == (if n.0 < old(self).used.len() {
                old(self).used@.update(n.0 as int, 0u8)
            } else {
                old(self).used@
            }),
            final(self).flags@ == (if n.0 < old(self).used.len() {
                old(self).flags@.update(n.0 as int, 0u8)
            } else {
                old(self).flags@
            }),
    {
        if n.0 < (self.used.len() as u64) {
            self.used[n.0 as usize] = 0u8;
            self.flags[n.0 as usize] = 0u8;
        }
    }

    /// The interleaved byte image of the map: slot `i` takes bytes `2i`
    /// (allocation mark) and `2i + 1` (flags).
    pub fn to_bytes(&self) -> (r: Vec<u8>)
        requires
            self.used.len() * 2 <= usize::MAX,
            self.used.len() == self.flags.len(),
        ensures
            r@ == inode_bytes(self.used@, self.flags@),
    {
        let mut out: Vec<u8> = Vec::new();
        let mut i: usize = 0;
        proof {
            assert(out@ =~= inode_bytes(self.used@, self.flags@).take(0));
        }
        while i < self.used.len()
            invariant
                i <= self.used.len(),
                self.used.len() * 2 <= usize::MAX,
                self.used.len() == self.flags.len(),
                out@ == inode_bytes(self.used@, self.flags@).take(2 * i as int),
            decreases self.used.len() - i,
        {
            out.push(self.used[i]);
            out.push(self.flags[i]);
            proof {
                assert(out@ =~= inode_bytes(self.used@, self.flags@).take(2 * (i + 1)));
            }
            i = i + 1;
        }
        proof {
            assert(inode_bytes(self.used@, self.flags@).take(
                2 * self.used@.len() as int,
            ) =~= inode_bytes(self.used@, self.flags@));
        }
        out
    }

    /// Rebuilds a map of `slot_count` slots from its interleaved byte
    /// image. Any nonzero mark byte counts as allocated; a free slot's
    /// flags are forced to zero, so corrupted free slots decode cleanly.
    pub fn decode(bytes: &Vec<u8>, slot_count: usize) -> (r: INodeMap)
        requires
            slot_count * 2 <= bytes.len(),
        ensures
            r.wf(),
            r.used.len() == slot_count,
            forall|i: int|
                0 <= i < slot_count ==> (r.allocated(i) <==> bytes@[2 * i] != 0),
            forall|i: int|
                0 <= i < slot_count && bytes@[2 * i] != 0 ==> r.flags@[i] == bytes@[2 * i + 1],
    {
        let mut used: Vec<u8> = Vec::new();
        let mut flags: Vec<u8> = Vec::new();
        let mut i: usize = 0;
        while i < slot_count
            invariant
                i <= slot_count,
                slot_count * 2 <= bytes.len(),
                used.len() == i,
                flags.len() == i,
                forall|t: int|
                    0 <= t < i ==> (#[trigger] used@[t]) == (if bytes@[2 * t] != 0 {
                        1u8
                    } else {
                        0u8
                    }),
                forall|t: int|
                    0 <= t < i ==> (#[trigger] flags@[t]) == (if bytes@[2 * t] != 0 {
                        bytes@[2 * t + 1]
                    } else {
                        0u8
                    }),
            decreases slot_count - i,
        {
            if bytes[2 * i] != 0 {
                used.push(1u8);
                flags.push(bytes[2 * i + 1]);
            } else {
                used.push(0u8);
                flags.push(0u8);
            }
            i = i + 1;
        }
        INodeMap { used, flags }
    }
}

/// The interleaved on-disk image of an inode map: mark byte then flags
/// byte, slot by slot.
pub open spec fn inode_bytes(used: Seq<u8>, flags: Seq<u8>) -> Seq<u8> {
    Seq::new(2 * used.len(), |i: int| if i % 2 == 0 {
        used[i / 2]
    } else {
        flags[i / 2]
    })
}

/// The byte image of region block `index`: one block-sized window onto the
/// region's bytes, zero-padded past their end.
pub open spec fn region_block(bytes: Seq<u8>, index: int, block_size: int) -> Seq<u8> {
    Seq::new(block_size as nat, |i: int| if index * block_size + i < bytes.len() {
        bytes[index * block_size + i]
    } else {
        0u8
    })
}

/// Builds the byte image of region block `index` from the region's bytes.
pub fn encode_region_block(bytes: &Vec<u8>, index: usize, block_size: usize) -> (r: Vec<u8>)
    requires
        index * block_size + block_size <= usize::MAX,
    ensures
        r@ == region_block(bytes@, index as int, block_size as int),
        r.len() == block_size,
{
    let mut out: Vec<u8> = Vec::new();
    let base: usize = index * block_size;
    let mut i: usize = 0;
    while i < block_size
        invariant
            i <= block_size,
            base == index * block_size,
            base + block_size <= usize::MAX,
            out@ == region_block(bytes@, index as int, block_size as int).take(i as int),
        decreases block_size - i,
    {
        if base + i < bytes.len() {
            out.push(bytes[base + i]);
        } else {
            out.push(0u8);
        }
        proof {
            assert(out@ =~= region_block(bytes@, index as int, block_size as int).take(i + 1));
        }
        i = i + 1;
    }
    proof {
        assert(region_block(bytes@, index as int, block_size as int).take(
            block_size as int,
        ) =~= region_block(bytes@, index as int, block_size as int));
    }
    out
}

} // verus!
