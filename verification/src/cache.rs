//! A write-back cache in front of a block device. Each cached block is
//! tagged as either raw bytes or an array of block numbers; reading a block
//! under the wrong tag is refused rather than reinterpreted. Entries are
//! created lazily on first access and live until the whole cache is flushed
//! back to the device.
//!
//! The cache is an arena of buffers indexed by block number: it owns every
//! buffer and hands out guarded copies at the API boundary; updates travel
//! back through `write` and `write_pointers`, and `write_all` persists the
//! current images. Order of entries in the store is irrelevant; keys are
//! unique.

use vstd::prelude::*;

use crate::block_number::{
    bytes_pointers, decode_pointers, encode_pointers, lemma_pointers_bytes_len, pointers_bytes,
    ptr_values, BlockNumber,
};
use crate::device::{BlockDevice, Error};

verus! {

/// A single-owner buffer with borrow-checked access: the storage behind one
/// cache entry, or a caller's working copy of it.
#[derive(Debug)]
pub struct SharedVec<T> {
    pub vec: Vec<T>,
}

impl<T> SharedVec<T> {
    pub fn new(vec: Vec<T>) -> (r: SharedVec<T>)
        ensures
            r.vec == vec,
    {
        SharedVec { vec }
    }

    pub fn borrow(&self) -> (r: &Vec<T>)
        ensures
            *r == self.vec,
    {
        &self.vec
    }

    pub fn borrow_mut(&mut self) -> (r: &mut Vec<T>)
        ensures
            *r == old(self).vec,
            final(self).vec == *final(r),
    {
        &mut self.vec
    }
}

/// What one cache entry stands for: the byte image of a block, or the
/// block-number values of a pointer block.
#[verifier::ext_equal]
pub enum EntryModel {
    Bytes(Seq<u8>),
    Pointers(Seq<u64>),
}

/// The byte image an entry writes to the device: raw bytes as they are,
/// pointer values through the fixed-width codec.
pub open spec fn model_bytes(m: EntryModel) -> Seq<u8> {
    match m {
        EntryModel::Bytes(b) => b,
        EntryModel::Pointers(ps) => pointers_bytes(ps),
    }
}

/// One cached block, tagged by interpretation.
#[derive(Debug)]
pub enum CacheEntry {
    Block { block: SharedVec<u8> },
    Pointers { pointers: SharedVec<BlockNumber> },
}

impl CacheEntry {
    pub open spec fn model(self) -> EntryModel {
        match self {
            CacheEntry::Block { block } => EntryModel::Bytes(block.vec@),
            CacheEntry::Pointers { pointers } => EntryModel::Pointers(ptr_values(pointers.vec@)),
        }
    }

    /// An entry always spans exactly one device block.
    pub open spec fn wf(self, block_size: int) -> bool {
        match self {
            CacheEntry::Block { block } => block.vec.len() == block_size,
            CacheEntry::Pointers { pointers } => pointers.vec.len() * 8 == block_size,
        }
    }

    /// The current byte image of the entry, as `write_all` sends it to the
    /// device.
    pub fn bytes(&self) -> (r: Vec<u8>)
        requires
            model_bytes(self.model()).len() <= usize::MAX,
        ensures
            r@ == model_bytes(self.model()),
    {
        match self {
            CacheEntry::Block { block } => copy_bytes(block.borrow()),
            CacheEntry::Pointers { pointers } => {
                proof {
                    lemma_pointers_bytes_len(ptr_values(pointers.vec@));
                    assert(ptr_values(pointers.vec@).len() == pointers.vec@.len());
                }
                encode_pointers(pointers.borrow())
            },
        }
    }
}

/// A fresh byte-for-byte copy.
fn copy_bytes(v: &Vec<u8>) -> (r: Vec<u8>)
    ensures
        r@ == v@,
{
    let mut out: Vec<u8> = Vec::new();
    let mut i: usize = 0;
    while i < v.len()
        invariant
            i <= v.len(),
            out@ == v@.take(i as int),
        decreases v.len() - i,
    {
        out.push(v[i]);
        assert(out@ =~= v@.take(i + 1));
        i = i + 1;
    }
    assert(v@.take(v.len() as int) =~= v@);
    out
}

/// A fresh element-for-element copy.
fn copy_numbers(v: &Vec<BlockNumber>) -> (r: Vec<BlockNumber>)
    ensures
        r@ == v@,
{
    let mut out: Vec<BlockNumber> = Vec::new();
    let mut i: usize = 0;
    while i < v.len()
        invariant
            i <= v.len(),
            out@ == v@.take(i as int),
        decreases v.len() - i,
    {
        out.push(v[i]);
        assert(out@ =~= v@.take(i + 1));
        i = i + 1;
    }
    assert(v@.take(v.len() as int) =~= v@);
    out
}

/// A vector of `n` zero bytes.
fn zero_bytes(n: usize) -> (r: Vec<u8>)
    ensures
        r@ == Seq::new(n as nat, |i: int| 0u8),
{
    let mut out: Vec<u8> = Vec::new();
    while out.len() < n
        invariant
            out.len() <= n,
            out@ == Seq::new(out.len() as nat, |i: int| 0u8),
        decreases n - out.len(),
    {
        out.push(0u8);
        assert(out@ =~= Seq::new(out.len() as nat, |i: int| 0u8));
    }
    out
}

/// The mapping a store of entries stands for: later entries shadow earlier
/// ones, though with unique keys nothing is ever shadowed.
pub open spec fn entries_model(s: Seq<(u64, CacheEntry)>) -> Map<u64, EntryModel>
    decreases s.len(),
{
    if s.len() == 0 {
        Map::empty()
    } else {
        entries_model(s.drop_last()).insert(s.last().0, s.last().1.model())
    }
}

/// No block number appears twice in the store.
pub open spec fn keys_unique(s: Seq<(u64, CacheEntry)>) -> bool {
    forall|i: int, j: int| 0 <= i < j < s.len() ==> s[i].0 != s[j].0
}

/// A key is in the model exactly when some entry carries it.
pub proof fn lemma_entries_model_contains(s: Seq<(u64, CacheEntry)>, k: u64)
    ensures
        entries_model(s).contains_key(k) <==> exists|i: int| 0 <= i < s.len() && s[i].0 == k,
    decreases s.len(),
{
    if s.len() > 0 {
        lemma_entries_model_contains(s.drop_last(), k);
        if s.last().0 == k {
            assert(s[s.len() - 1].0 == k);
        } else {
            if exists|i: int| 0 <= i < s.len() - 1 && s.drop_last()[i].0 == k {
                let i = choose|i: int| 0 <= i < s.len() - 1 && s.drop_last()[i].0 == k;
                assert(s[i].0 == k);
            }
            if exists|i: int| 0 <= i < s.len() && s[i].0 == k {
                let i = choose|i: int| 0 <= i < s.len() && s[i].0 == k;
                assert(s.drop_last()[i].0 == k);
            }
        }
    }
}

/// With unique keys, the model maps each entry's key to that entry's value.
pub proof fn lemma_entries_model_index(s: Seq<(u64, CacheEntry)>, i: int)
    requires
        keys_unique(s),
        0 <= i < s.len(),
    ensures
        entries_model(s).contains_key(s[i].0),
        entries_model(s)[s[i].0] == s[i].1.model(),
    decreases s.len(),
{
    if i < s.len() - 1 {
        assert(keys_unique(s.drop_last())) by {
            assert(forall|p: int, q: int|
                0 <= p < q < s.len() - 1 ==> s.drop_last()[p].0 != s.drop_last()[q].0);
        }
        assert(s.drop_last()[i] == s[i]);
        lemma_entries_model_index(s.drop_last(), i);
        assert(s.last().0 != s[i].0);
    }
}

/// Replacing the entry at `i` by another under the same key updates exactly
/// that key's image in the model.
pub proof fn lemma_entries_model_update(s: Seq<(u64, CacheEntry)>, i: int, e: CacheEntry)
    requires
        keys_unique(s),
        0 <= i < s.len(),
    ensures
        entries_model(s.update(i, (s[i].0, e))) == entries_model(s).insert(s[i].0, e.model()),
    decreases s.len(),
{
    let k = s[i].0;
    let s2 = s.update(i, (k, e));
    if i == s.len() - 1 {
        assert(s2.drop_last() =~= s.drop_last());
        assert(s2.last() == (k, e));
        assert(entries_model(s2) =~= entries_model(s).insert(k, e.model()));
    } else {
        assert(keys_unique(s.drop_last())) by {
            assert(forall|p: int, q: int|
                0 <= p < q < s.len() - 1 ==> s.drop_last()[p].0 != s.drop_last()[q].0);
        }
        assert(s.drop_last()[i] == s[i]);
        lemma_entries_model_update(s.drop_last(), i, e);
        assert(s2.drop_last() =~= s.drop_last().update(i, (k, e)));
        assert(s2.last() == s.last());
        assert(s.last().0 != k);
        assert(entries_model(s2) =~= entries_model(s).insert(k, e.model()));
    }
}

/// An in-memory, per-block-number store of typed entries in front of a
/// device. Entries may run ahead of what is persisted (write-back);
/// `write_all` brings the device up to date.
#[derive(Debug)]
pub struct Cache {
    /// The entry store. Public so that specifications can speak of it; exec
    /// callers go through the methods, which keep `wf`.
    pub entries: Vec<(u64, CacheEntry)>,
    pub device: BlockDevice,
}

impl Cache {
    /// The mapping from block number to cached image.
    pub open spec fn model(self) -> Map<u64, EntryModel> {
        entries_model(self.entries@)
    }

    pub open spec fn wf(self) -> bool {
        &&& self.device.wf()
        &&& keys_unique(self.entries@)
        &&& forall|i: int|
            0 <= i < self.entries@.len() ==> (#[trigger] self.entries@[i].1).wf(
                self.device.block_size_spec(),
            )
    }

    pub fn new(device: BlockDevice) -> (r: Cache)
        requires
            device.wf(),
        ensures
            r.device == device,
            r.model() == Map::<u64, EntryModel>::empty(),
            r.wf(),
    {
        Cache { entries: Vec::new(), device }
    }

    /// Gives the device back, dropping every cached entry unwritten.
    pub fn into_device(self) -> (r: BlockDevice)
        ensures
            r == self.device,
    {
        self.device
    }

    /// The index of the entry for `key`, if one is cached.
    fn find_entry(entries: &Vec<(u64, CacheEntry)>, key: u64) -> (r: Option<usize>)
        ensures
            match r {
                Some(i) => i < entries.len() && entries@[i as int].0 == key,
                None => forall|j: int| 0 <= j < entries@.len() ==> entries@[j].0 != key,
            },
    {
        let mut i: usize = 0;
        while i < entries.len()
            invariant
                i <= entries.len(),
                forall|j: int| 0 <= j < i ==> entries@[j].0 != key,
            decreases entries.len() - i,
        {
            if entries[i].0 == key {
                return Some(i);
            }
            i = i + 1;
        }
        None
    }

    /// Returns the raw bytes of block `block_num`: the cached image when the
    /// block is cached as `Block`, else the block freshly read from the
    /// device and installed as a new `Block` entry. Fails with
    /// `CacheInvalid`, changing nothing, when the block is cached as
    /// `Pointers`: the same block cannot be read under both interpretations
    /// without an explicit re-tag through `write_pointers`. Fails with
    /// `OutOfRange` when the block is uncached and past the device's end.
    pub fn read(&mut self, block_num: BlockNumber) -> (r: Result<SharedVec<u8>, Error>)
        requires
            old(self).wf(),
        ensures
            final(self).wf(),
            final(self).device.config == old(self).device.config,
            final(self).device.contents() == old(self).device.contents(),
            match r {
                Ok(v) => {
                    if old(self).model().contains_key(block_num.0) {
                        &&& old(self).model()[block_num.0] == EntryModel::Bytes(v.vec@)
                        &&& final(self).model() == old(self).model()
                    } else {
                        &&& block_num.0 < old(self).device.config.block_count
                        &&& v.vec@ == old(self).device.block_at(block_num.0 as int)
                        &&& final(self).model() == old(self).model().insert(
                            block_num.0,
                            EntryModel::Bytes(v.vec@),
                        )
                    }
                },
                Err(e) => {
                    &&& final(self).model() == old(self).model()
                    &&& (e == Error::CacheInvalid <==> (old(self).model().contains_key(block_num.0)
                        && old(self).model()[block_num.0] is Pointers))
                    &&& (e == Error::OutOfRange <==> (!old(self).model().contains_key(block_num.0)
                        && block_num.0 >= old(self).device.config.block_count))
                    &&& (e == Error::CacheInvalid || e == Error::OutOfRange)
                },
            },
    {
        match Cache::find_entry(&self.entries, block_num.0) {
            Some(i) => {
                proof {
                    lemma_entries_model_index(self.entries@, i as int);
                    lemma_entries_model_contains(self.entries@, block_num.0);
                }
                match &self.entries[i].1 {
                    CacheEntry::Block { block } => Ok(SharedVec::new(copy_bytes(block.borrow()))),
                    CacheEntry::Pointers { .. } => Err(Error::CacheInvalid),
                }
            },
            None => {
                proof {
                    lemma_entries_model_contains(self.entries@, block_num.0);
                }
                let bs = self.device.config.block_size as usize;
                let mut buf = zero_bytes(bs);
                match self.device.read(block_num, &mut buf) {
                    Ok(()) => {
                        proof {
                            crate::device::lemma_block_offset_in_range(
                                block_num.0 as int,
                                self.device.block_count_spec(),
                                self.device.block_size_spec(),
                            );
                            assert(buf@.len() == self.device.block_size_spec());
                        }
                        let stored = copy_bytes(&buf);
                        let ghost before = self.entries@;
                        self.entries.push(
                            (block_num.0, CacheEntry::Block { block: SharedVec::new(stored) }),
                        );
                        proof {
                            assert(self.entries@.drop_last() =~= before);
                            assert(keys_unique(self.entries@));
                            assert(forall|t: int|
                                0 <= t < self.entries@.len() - 1 ==> self.entries@[t]
                                    == before[t]);
                            assert(self.entries@.last().1.wf(self.device.block_size_spec()));
                        }
                        Ok(SharedVec::new(buf))
                    },
                    Err(e) => Err(e),
                }
            },
        }
    }

    /// Returns the block-number values of block `block_num`: the cached
    /// array when the block is cached as `Pointers`, else the block freshly
    /// read from the device, decoded, and installed as a new `Pointers`
    /// entry. Fails with `CacheInvalid`, changing nothing, when the block is
    /// cached as `Block`, and with `OutOfRange` when it is uncached and past
    /// the device's end. The device's block size must divide into whole
    /// block numbers; a geometry where it does not is a format error the
    /// caller rejects before interpreting any block as pointers.
    pub fn read_pointers(&mut self, block_num: BlockNumber) -> (r: Result<
        SharedVec<BlockNumber>,
        Error,
    >)
        requires
            old(self).wf(),
            old(self).device.config.block_size % 8 == 0,
        ensures
            final(self).wf(),
            final(self).device.config == old(self).device.config,
            final(self).device.contents() == old(self).device.contents(),
            match r {
                Ok(v) => {
                    if old(self).model().contains_key(block_num.0) {
                        &&& old(self).model()[block_num.0] == EntryModel::Pointers(
                            ptr_values(v.vec@),
                        )
                        &&& final(self).model() == old(self).model()
                    } else {
                        &&& block_num.0 < old(self).device.config.block_count
                        &&& ptr_values(v.vec@) == bytes_pointers(
                            old(self).device.block_at(block_num.0 as int),
                        )
                        &&& final(self).model() == old(self).model().insert(
                            block_num.0,
                            EntryModel::Pointers(ptr_values(v.vec@)),
                        )
                    }
                },
                Err(e) => {
                    &&& final(self).model() == old(self).model()
                    &&& (e == Error::CacheInvalid <==> (old(self).model().contains_key(block_num.0)
                        && old(self).model()[block_num.0] is Bytes))
                    &&& (e == Error::OutOfRange <==> (!old(self).model().contains_key(block_num.0)
                        && block_num.0 >= old(self).device.config.block_count))
                    &&& (e == Error::CacheInvalid || e == Error::OutOfRange)
                },
            },
    {
        match Cache::find_entry(&self.entries, block_num.0) {
            Some(i) => {
                proof {
                    lemma_entries_model_index(self.entries@, i as int);
                    lemma_entries_model_contains(self.entries@, block_num.0);
                }
                match &self.entries[i].1 {
                    CacheEntry::Block { .. } => Err(Error::CacheInvalid),
                    CacheEntry::Pointers { pointers } => Ok(
                        SharedVec::new(copy_numbers(pointers.borrow())),
                    ),
                }
            },
            None => {
                proof {
                    lemma_entries_model_contains(self.entries@, block_num.0);
                }
                let bs = self.device.config.block_size as usize;
                let mut buf = zero_bytes(bs);
                match self.device.read(block_num, &mut buf) {
                    Ok(()) => {
                        proof {
                            crate::device::lemma_block_offset_in_range(
                                block_num.0 as int,
                                self.device.block_count_spec(),
                                self.device.block_size_spec(),
                            );
                            assert(buf@.len() == self.device.block_size_spec());
                        }
                        let decoded = decode_pointers(&buf);
                        let stored = copy_numbers(&decoded);
                        let ghost before = self.entries@;
                        self.entries.push(
                            (
                                block_num.0,
                                CacheEntry::Pointers { pointers: SharedVec::new(stored) },
                            ),
                        );
                        proof {
                            assert(self.entries@.drop_last() =~= before);
                            assert(keys_unique(self.entries@));
                            assert(forall|t: int|
                                0 <= t < self.entries@.len() - 1 ==> self.entries@[t]
                                    == before[t]);
                            assert(self.entries@.last().1.wf(self.device.block_size_spec()));
                        }
                        Ok(SharedVec::new(decoded))
                    },
                    Err(e) => Err(e),
                }
            },
        }
    }

    /// Installs or replaces the entry for `block_num` as a `Block` entry
    /// holding `block`: the byte-side counterpart of `write_pointers`, and
    /// with it the only sanctioned way to change an entry's tag. The buffer
    /// must span exactly one device block.
    pub fn write(&mut self, block_num: BlockNumber, block: Vec<u8>)
        requires
            old(self).wf(),
            block.len() == old(self).device.config.block_size,
        ensures
            final(self).wf(),
            final(self).device == old(self).device,
            final(self).model() == old(self).model().insert(
                block_num.0,
                EntryModel::Bytes(block@),
            ),
    {
        let entry = CacheEntry::Block { block: SharedVec::new(block) };
        self.install(block_num, entry);
    }

    /// Installs or replaces the entry for `block_num` as a `Pointers` entry
    /// holding the given sequence: an explicit re-tag. The sequence must
    /// encode to exactly one device block.
    pub fn write_pointers(&mut self, block_num: BlockNumber, pointers: Vec<BlockNumber>)
        requires
            old(self).wf(),
            pointers.len() * 8 == old(self).device.config.block_size,
        ensures
            final(self).wf(),
            final(self).device == old(self).device,
            final(self).model() == old(self).model().insert(
                block_num.0,
                EntryModel::Pointers(ptr_values(pointers@)),
            ),
    {
        let entry = CacheEntry::Pointers { pointers: SharedVec::new(pointers) };
        self.install(block_num, entry);
    }

    /// Installs `entry` under `block_num`, replacing any entry there.
    fn install(&mut self, block_num: BlockNumber, entry: CacheEntry)
        requires
            old(self).wf(),
            entry.wf(old(self).device.block_size_spec()),
        ensures
            final(self).wf(),
            final(self).device == old(self).device,
            final(self).model() == old(self).model().insert(block_num.0, entry.model()),
    {
        match Cache::find_entry(&self.entries, block_num.0) {
            Some(i) => {
                let ghost before = self.entries@;
                proof {
                    lemma_entries_model_update(self.entries@, i as int, entry);
                }
                self.entries[i] = (block_num.0, entry);
                proof {
                    assert(self.entries@ =~= before.update(i as int, (block_num.0, entry)));
                }
            },
            None => {
                let ghost before = self.entries@;
                self.entries.push((block_num.0, entry));
                proof {
                    assert(self.entries@.drop_last() =~= before);
                    assert(keys_unique(self.entries@));
                }
            },
        }
    }

    /// Writes every cached entry's current byte image back to the device at
    /// its block number. Flushing is fail-fast: it stops at the first entry
    /// whose block number lies past the device's end, leaving entries
    /// earlier in the store persisted and later ones not; on success every
    /// cached block's image is on the device and every uncached block is
    /// untouched. The cache keeps its entries either way.
    pub fn write_all(&mut self) -> (r: Result<(), Error>)
        requires
            old(self).wf(),
        ensures
            final(self).wf(),
            final(self).entries == old(self).entries,
            final(self).model() == old(self).model(),
            final(self).device.config == old(self).device.config,
            match r {
                Ok(()) => {
                    &&& forall|k: u64|
                        old(self).model().contains_key(k)
                            ==> k < old(self).device.config.block_count
                    &&& forall|bn: int|
                        0 <= bn < old(self).device.config.block_count
                            ==> final(self).device.block_at(bn) == (
                            if old(self).model().contains_key(bn as u64) {
                                model_bytes(old(self).model()[bn as u64])
                            } else {
                                old(self).device.block_at(bn)
                            }
                        )
                },
                Err(e) => {
                    &&& e == Error::OutOfRange
                    &&& exists|k: u64|
                        #[trigger] old(self).model().contains_key(k)
                            && k >= old(self).device.config.block_count
                    &&& forall|bn: int|
                        0 <= bn < old(self).device.config.block_count
                            ==> (final(self).device.block_at(bn) == old(self).device.block_at(bn)
                            || (old(self).model().contains_key(bn as u64)
                            && final(self).device.block_at(bn) == model_bytes(
                            old(self).model()[bn as u64],
                        )))
                },
            },
    {
        let ghost bc = self.device.block_count_spec();
        let mut i: usize = 0;
        while i < self.entries.len()
            invariant
                self.wf(),
                self.entries == old(self).entries,
                self.device.config == old(self).device.config,
                i <= self.entries@.len(),
                forall|t: int|
                    0 <= t < i ==> (#[trigger] self.entries@[t].0)
                        < old(self).device.config.block_count && self.device.block_at(
                        self.entries@[t].0 as int,
                    ) == model_bytes(self.entries@[t].1.model()),
                forall|bn: int|
                    0 <= bn < old(self).device.config.block_count && !(exists|t: int|
                        0 <= t < i && (#[trigger] self.entries@[t].0) == bn)
                        ==> self.device.block_at(bn) == old(self).device.block_at(bn),
            decreases self.entries@.len() - i,
        {
            let key = self.entries[i].0;
            proof {
                let e = self.entries@[i as int].1;
                assert(e.wf(self.device.block_size_spec()));
                match e {
                    CacheEntry::Block { block } => {},
                    CacheEntry::Pointers { pointers } => {
                        lemma_pointers_bytes_len(ptr_values(pointers.vec@));
                    },
                }
            }
            let img = self.entries[i].1.bytes();
            let ghost dev0 = self.device;
            match self.device.write(BlockNumber(key), &img) {
                Ok(()) => {
                    proof {
                        crate::device::lemma_write_block_at(
                            dev0,
                            self.device,
                            key as int,
                            img@,
                        );
                        lemma_entries_model_index(self.entries@, i as int);
                    }
                },
                Err(e) => {
                    proof {
                        lemma_entries_model_index(self.entries@, i as int);
                        lemma_entries_model_contains(self.entries@, key);
                        assert(old(self).model().contains_key(key) && key >= old(
                            self,
                        ).device.config.block_count);
                        assert forall|bn: int|
                            0 <= bn < old(self).device.config.block_count implies (
                        self.device.block_at(bn) == old(self).device.block_at(bn) || (old(
                            self,
                        ).model().contains_key(bn as u64) && self.device.block_at(bn)
                            == model_bytes(old(self).model()[bn as u64]))) by {
                            if exists|t: int|
                                0 <= t < i && (#[trigger] self.entries@[t].0) == bn {
                                let t = choose|t: int|
                                    0 <= t < i && (#[trigger] self.entries@[t].0) == bn;
                                lemma_entries_model_index(self.entries@, t);
                            }
                        }
                    }
                    return Err(e);
                },
            }
            i = i + 1;
        }
        proof {
            assert forall|k: u64| old(self).model().contains_key(k) implies k < old(
                self,
            ).device.config.block_count by {
                lemma_entries_model_contains(self.entries@, k);
                let t = choose|t: int| 0 <= t < self.entries@.len() && self.entries@[t].0 == k;
                assert(self.entries@[t].0 < old(self).device.config.block_count);
            }
            assert forall|bn: int| 0 <= bn < old(self).device.config.block_count implies
            self.device.block_at(bn) == (if old(self).model().contains_key(bn as u64) {
                model_bytes(old(self).model()[bn as u64])
            } else {
                old(self).device.block_at(bn)
            }) by {
                lemma_entries_model_contains(self.entries@, bn as u64);
                if old(self).model().contains_key(bn as u64) {
                    let t = choose|t: int|
                        0 <= t < self.entries@.len() && self.entries@[t].0 == bn as u64;
                    lemma_entries_model_index(self.entries@, t);
                }
            }
        }
        Ok(())
    }
}

} // verus!
