//! The compressed map: head-words to definitions, with block-compressed
//! values and an ordered, uncompressed key index.
//!
//! Definitions are appended to an open block, each behind an eight-byte
//! little-endian length. A block that would outgrow the target size is closed
//! and compressed; a fresh one opens. A definition that is larger than the
//! compressor takes in one piece gets a block of its own, which stays as it
//! is. The index holds the folded head-words in
//! ascending byte order, each with the head-word as it was spelled when it was
//! stored and with the place of its definition. A lookup decompresses at most
//! the one block its slot names.

use vstd::prelude::*;
use vstd::bytes::*;
use crate::codec::{compress, decompress, zstd_frame, MAX_BLOCK};
use crate::text::{
    append, compare, copy_of, copy_range, fold, has_prefix, lemma_fold_idempotent, lemma_lex_asymmetric,
    lemma_lex_transitive, lemma_prefix_block_ends, lemma_prefix_not_less, lex_lt, pairs,
    starts_with, to_lower, Rank,
};

verus! {

/// Bytes of the length that precedes every definition in a block.
pub const LENGTH_PREFIX: usize = 8;

/// Longest definition the map accepts: with the length before it, it has to
/// fit in a block, and a block in memory.
pub const MAX_DEFINITION: usize = usize::MAX - 8;

/// Block size used when none is chosen: 128 KiB of payload.
pub const DEFAULT_BLOCK_BYTES: usize = 0x2_0000;

/// Compression level used when none is chosen.
pub const DEFAULT_LEVEL: i32 = 7;

/// Why the map refused a change.
#[derive(Clone, Copy, Debug, PartialEq, Eq, Structural)]
pub enum StoreError {
    /// The map has been finalized.
    Frozen,
    /// A definition is longer than `MAX_DEFINITION`.
    TooLarge,
    /// The compressor failed while the map was being finalized.
    Compression,
}

/// Where a definition lies: `len` bytes at `offset` in block `block`.
#[derive(Clone, Copy, Debug)]
struct Slot {
    block: usize,
    offset: usize,
    len: usize,
}

/// A closed block. `bytes` is the zstd frame of the payload when `packed`,
/// and the payload itself otherwise. A payload of more than `MAX_BLOCK`
/// bytes is never packed.
pub struct Block {
    bytes: Vec<u8>,
    packed: bool,
    size: usize,
    level: i32,
    payload: Ghost<Seq<u8>>,
}

impl Block {
    /// The bytes that the block stands for.
    pub closed spec fn payload(&self) -> Seq<u8> {
        self.payload@
    }

    /// Whether the block holds a frame rather than its payload.
    pub closed spec fn is_packed(&self) -> bool {
        self.packed
    }

    /// Whether nothing is left to do for the block when its map is frozen:
    /// it is packed, or too large to be.
    pub closed spec fn is_settled(&self) -> bool {
        self.packed || self.size > MAX_BLOCK
    }

    /// The bytes held are the payload or its frame, as `packed` says.
    pub closed spec fn wf(&self) -> bool {
        &&& self.size == self.payload@.len()
        &&& self.packed ==> self.size <= MAX_BLOCK && self.bytes@ == zstd_frame(
            self.payload@,
            self.level,
        )
        &&& !self.packed ==> self.bytes@ == self.payload@
    }

    /// Closes a payload given what the compressor made of it: the frame if
    /// there is one, the payload as it stands if there is none.
    pub fn close(plain: Vec<u8>, frame: Option<Vec<u8>>, level: i32) -> (r: Block)
        requires
            frame matches Some(f) ==> plain@.len() <= MAX_BLOCK && f@ == zstd_frame(plain@, level),
        ensures
            r.wf(),
            r.payload() == plain@,
            r.is_packed() == frame.is_some(),
            r.is_settled() == (frame.is_some() || plain@.len() > MAX_BLOCK),
    {
        let size: usize = plain.len();
        let ghost payload = plain@;
        match frame {
            Some(f) => Block { bytes: f, packed: true, size, level, payload: Ghost(payload) },
            None => Block { bytes: plain, packed: false, size, level, payload: Ghost(payload) },
        }
    }

    /// Whether the block holds a frame rather than its payload.
    pub fn packed(&self) -> (r: bool)
        ensures
            r == self.is_packed(),
    {
        self.packed
    }

    /// Closes a payload for a map that is being frozen, where every block
    /// has to be compressed: without a frame there is no block.
    pub fn pack(plain: Vec<u8>, frame: Option<Vec<u8>>, level: i32) -> (r: Result<Block, StoreError>)
        requires
            plain@.len() <= MAX_BLOCK,
            frame matches Some(f) ==> f@ == zstd_frame(plain@, level),
        ensures
            match r {
                Ok(b) => frame is Some && b.wf() && b.payload() == plain@ && b.is_packed(),
                Err(e) => frame is None && e == StoreError::Compression,
            },
    {
        if frame.is_none() {
            return Err(StoreError::Compression);
        }
        Ok(Block::close(plain, frame, level))
    }

    /// The `len` bytes at `offset` of the payload, which is decompressed if
    /// need be.
    fn slice(&self, offset: usize, len: usize) -> (r: Option<Vec<u8>>)
        requires
            self.wf(),
            offset + len <= self.payload().len(),
        ensures
            r is Some,
            r->0@ == self.payload().subrange(offset as int, offset + len),
    {
        if self.packed {
            match decompress(self.bytes.as_slice(), self.size) {
                Some(plain) => Some(copy_range(plain.as_slice(), offset, offset + len)),
                None => None,
            }
        } else {
            Some(copy_range(self.bytes.as_slice(), offset, offset + len))
        }
    }
}

/// The slot lies inside `payload`, behind the length of its definition.
spec fn slot_fits(slot: Slot, payload: Seq<u8>) -> bool {
    &&& LENGTH_PREFIX <= slot.offset
    &&& slot.offset + slot.len <= payload.len()
    &&& payload.subrange(slot.offset - LENGTH_PREFIX, slot.offset as int) == spec_u64_to_le_bytes(
        slot.len as u64,
    )
}

/// The definition behind `slot` in `payload`.
spec fn slot_value(slot: Slot, payload: Seq<u8>) -> Seq<u8> {
    payload.subrange(slot.offset as int, slot.offset + slot.len)
}

/// Strictly ascending in byte order.
pub open spec fn ascending(keys: Seq<Vec<u8>>) -> bool {
    forall|i: int, j: int| 0 <= i < j < keys.len() ==> lex_lt(#[trigger] keys[i]@, #[trigger] keys[j]@)
}

/// An entry as it was stored: the head-word and its definition.
pub type Entry = (Seq<u8>, Seq<u8>);

/// Folded head-words to entries, the definitions kept in compressed blocks.
pub struct CompressedMap {
    keys: Vec<Vec<u8>>,
    words: Vec<Vec<u8>>,
    slots: Vec<Slot>,
    blocks: Vec<Block>,
    open: Vec<u8>,
    frozen: bool,
    block_bytes: usize,
    level: i32,
    model: Ghost<Map<Seq<u8>, Entry>>,
}

impl View for CompressedMap {
    type V = Map<Seq<u8>, Entry>;

    /// Folded head-word to the entry stored under it.
    closed spec fn view(&self) -> Map<Seq<u8>, Entry> {
        self.model@
    }
}

impl CompressedMap {
    /// Whether the map has been finalized.
    pub closed spec fn is_frozen(&self) -> bool {
        self.frozen
    }

    /// Payload size at which a block is closed.
    pub closed spec fn block_bytes(&self) -> usize {
        self.block_bytes
    }

    /// Compression level of the blocks.
    pub closed spec fn level(&self) -> i32 {
        self.level
    }

    /// The payload of block `b`; the open block comes after the closed ones.
    closed spec fn payload_of(&self, b: int) -> Seq<u8> {
        if 0 <= b < self.blocks.len() {
            self.blocks[b].payload()
        } else {
            self.open@
        }
    }

    closed spec fn slot_ok(&self, i: int) -> bool {
        let slot = self.slots[i];
        &&& slot.block <= self.blocks.len()
        &&& slot_fits(slot, self.payload_of(slot.block as int))
        &&& self.model@.dom().contains(self.keys[i]@)
        &&& self.model@[self.keys[i]@] == (
            self.words[i]@,
            slot_value(slot, self.payload_of(slot.block as int)),
        )
        &&& fold(self.words[i]@) == self.keys[i]@
        &&& fold(self.keys[i]@) == self.keys[i]@
    }

    /// The representation invariant.
    pub closed spec fn wf(&self) -> bool {
        &&& self.keys.len() == self.slots.len()
        &&& self.keys.len() == self.words.len()
        &&& ascending(self.keys@)
        &&& forall|i: int| 0 <= i < self.keys.len() ==> self.slot_ok(i)
        &&& forall|k: Seq<u8>| #[trigger]
            self.model@.dom().contains(k) ==> exists|i: int|
                0 <= i < self.keys.len() && #[trigger] self.keys[i]@ == k
        &&& forall|b: int| 0 <= b < self.blocks.len() ==> (#[trigger] self.blocks[b]).wf()
        &&& self.keys.len() == 0 ==> self.blocks.len() == 0 && self.open@.len() == 0
        &&& 0 < self.block_bytes <= MAX_BLOCK
        &&& self.frozen ==> self.open@.len() == 0 && forall|b: int|
            0 <= b < self.blocks.len() ==> (#[trigger] self.blocks[b]).is_settled()
    }

    /// Every key of a well-formed map is in folded form, and is the folded
    /// form of the head-word stored under it.
    pub proof fn lemma_keys_folded(&self, k: Seq<u8>)
        requires
            self.wf(),
            self@.dom().contains(k),
        ensures
            fold(k) == k,
            fold(self@[k].0) == k,
    {
        let i = choose|i: int| 0 <= i < self.keys.len() && #[trigger] self.keys[i]@ == k;
        assert(self.slot_ok(i));
    }

    /// An empty map whose blocks close at `block_bytes` of payload (at least
    /// one byte, at most `MAX_BLOCK`) and are compressed at `level`.
    pub fn new(block_bytes: usize, level: i32) -> (r: CompressedMap)
        ensures
            r.wf(),
            r@ == Map::<Seq<u8>, Entry>::empty(),
            !r.is_frozen(),
            r.level() == level,
            r.block_bytes() == if block_bytes == 0 {
                1
            } else if block_bytes > MAX_BLOCK {
                MAX_BLOCK
            } else {
                block_bytes
            },
    {
        let target: usize = if block_bytes == 0 {
            1
        } else if block_bytes > MAX_BLOCK {
            MAX_BLOCK
        } else {
            block_bytes
        };
        CompressedMap {
            keys: Vec::new(),
            words: Vec::new(),
            slots: Vec::new(),
            blocks: Vec::new(),
            open: Vec::new(),
            frozen: false,
            block_bytes: target,
            level,
            model: Ghost(Map::empty()),
        }
    }

    /// An empty map with the default block size and level.
    pub fn with_defaults() -> (r: CompressedMap)
        ensures
            r.wf(),
            r@ == Map::<Seq<u8>, Entry>::empty(),
            !r.is_frozen(),
            r.level() == DEFAULT_LEVEL,
            r.block_bytes() == DEFAULT_BLOCK_BYTES,
    {
        CompressedMap::new(DEFAULT_BLOCK_BYTES, DEFAULT_LEVEL)
    }

    /// Whether the map has been finalized.
    pub fn frozen(&self) -> (r: bool)
        ensures
            r == self.is_frozen(),
    {
        self.frozen
    }

    /// Number of distinct head-words.
    pub fn len(&self) -> (r: usize)
        requires
            self.wf(),
        ensures
            r == self@.dom().len(),
            self@.dom().finite(),
    {
        proof {
            self.lemma_dom_len();
        }
        self.keys.len()
    }

    /// The keys as a set, counted.
    proof fn lemma_dom_len(&self)
        requires
            self.wf(),
        ensures
            self@.dom().finite(),
            self@.dom().len() == self.keys.len(),
    {
        let keys = self.keys@;
        let image = Seq::new(keys.len(), |i: int| keys[i]@);
        assert forall|i: int, j: int| 0 <= i < image.len() && 0 <= j < image.len() && i
            != j implies image[i] != image[j] by {
            if i < j {
                lemma_lex_asymmetric(keys[i]@, keys[j]@);
            } else {
                lemma_lex_asymmetric(keys[j]@, keys[i]@);
            }
        }
        assert(image.no_duplicates());
        image.unique_seq_to_set();
        assert(image.to_set() =~= self@.dom()) by {
            assert forall|k: Seq<u8>| image.to_set().contains(k) implies self@.dom().contains(
                k,
            ) by {
                let i = choose|i: int| 0 <= i < image.len() && image[i] == k;
                assert(self.slot_ok(i));
            }
            assert forall|k: Seq<u8>| self@.dom().contains(k) implies image.to_set().contains(
                k,
            ) by {
                let i = choose|i: int| 0 <= i < self.keys.len() && #[trigger] self.keys[i]@ == k;
                assert(image[i] == k);
            }
        }
    }

    /// Binary search: the number of keys below `key`, and whether the key at
    /// that place is `key` itself.
    fn find(&self, key: &[u8]) -> (r: (bool, usize))
        requires
            self.wf(),
        ensures
            r.1 <= self.keys.len(),
            forall|i: int| 0 <= i < r.1 ==> lex_lt(#[trigger] self.keys[i]@, key@),
            forall|i: int|
                r.1 <= i < self.keys.len() && !(r.0 && i == r.1) ==> lex_lt(
                    key@,
                    #[trigger] self.keys[i]@,
                ),
            r.0 <==> r.1 < self.keys.len() && self.keys[r.1 as int]@ == key@,
            r.0 <==> self@.dom().contains(key@),
    {
        let mut lo: usize = 0;
        let mut hi: usize = self.keys.len();
        while lo < hi
            invariant
                self.wf(),
                lo <= hi <= self.keys.len(),
                forall|i: int| 0 <= i < lo ==> lex_lt(#[trigger] self.keys[i]@, key@),
                forall|i: int|
                    hi <= i < self.keys.len() ==> lex_lt(key@, #[trigger] self.keys[i]@),
            decreases hi - lo,
        {
            let mid: usize = lo + (hi - lo) / 2;
            match compare(self.keys[mid].as_slice(), key) {
                Rank::Before => {
                    proof {
                        assert forall|i: int| 0 <= i < mid + 1 implies lex_lt(
                            #[trigger] self.keys[i]@,
                            key@,
                        ) by {
                            if i < mid {
                                lemma_lex_transitive(self.keys[i]@, self.keys[mid as int]@, key@);
                            }
                        }
                    }
                    lo = mid + 1;
                },
                Rank::Same => {
                    proof {
                        assert forall|i: int| 0 <= i < mid implies lex_lt(
                            #[trigger] self.keys[i]@,
                            key@,
                        ) by {}
                        assert(self.slot_ok(mid as int));
                    }
                    return (true, mid);
                },
                Rank::After => {
                    proof {
                        assert forall|i: int| mid <= i < self.keys.len() implies lex_lt(
                            key@,
                            #[trigger] self.keys[i]@,
                        ) by {
                            if i > mid {
                                lemma_lex_transitive(key@, self.keys[mid as int]@, self.keys[i]@);
                            }
                        }
                    }
                    hi = mid;
                },
            }
        }
        proof {
            if self@.dom().contains(key@) {
                let i = choose|i: int| 0 <= i < self.keys.len() && #[trigger] self.keys[i]@ == key@;
                if i < lo {
                    lemma_lex_asymmetric(self.keys[i]@, key@);
                } else {
                    lemma_lex_asymmetric(key@, self.keys[i]@);
                }
            }
        }
        (false, lo)
    }

    /// The bytes behind the slot of key `i`.
    fn read(&self, i: usize) -> (r: Option<Vec<u8>>)
        requires
            self.wf(),
            i < self.keys.len(),
        ensures
            r is Some,
            r->0@ == self@[self.keys[i as int]@].1,
    {
        assert(self.slot_ok(i as int));
        let slot: Slot = self.slots[i];
        if slot.block < self.blocks.len() {
            assert(self.blocks[slot.block as int].wf());
            self.blocks[slot.block].slice(slot.offset, slot.len)
        } else {
            assert(self.open@.len() == self.open.len());
            Some(copy_range(self.open.as_slice(), slot.offset, slot.offset + slot.len))
        }
    }

    /// Whether a definition is stored for `word`, compared in folded form.
    pub fn contains(&self, word: &[u8]) -> (r: bool)
        requires
            self.wf(),
        ensures
            r == self@.dom().contains(fold(word@)),
    {
        let key: Vec<u8> = to_lower(word);
        let (found, _at) = self.find(key.as_slice());
        found
    }

    /// The head-word stored for `word`, compared in folded form, as it was
    /// spelled when it was stored.
    pub fn stored_word(&self, word: &[u8]) -> (r: Option<Vec<u8>>)
        requires
            self.wf(),
        ensures
            match r {
                Some(w) => self@.dom().contains(fold(word@)) && w@ == self@[fold(word@)].0,
                None => !self@.dom().contains(fold(word@)),
            },
    {
        let key: Vec<u8> = to_lower(word);
        let (found, at) = self.find(key.as_slice());
        if found {
            assert(self.slot_ok(at as int));
            Some(copy_of(self.words[at].as_slice()))
        } else {
            None
        }
    }

    /// Exact lookup: the definition stored for `word`, compared in folded
    /// form.
    pub fn get(&self, word: &[u8]) -> (r: Option<Vec<u8>>)
        requires
            self.wf(),
        ensures
            match r {
                Some(d) => self@.dom().contains(fold(word@)) && d@ == self@[fold(word@)].1,
                None => !self@.dom().contains(fold(word@)),
            },
    {
        let key: Vec<u8> = to_lower(word);
        let (found, at) = self.find(key.as_slice());
        if found {
            self.read(at)
        } else {
            None
        }
    }
    /// Closes the open block. It is compressed if the compressor takes it
    /// and succeeds, and kept as it stands if not; `finalize` tries again
    /// where the compressor failed.
    fn seal(&mut self)
        requires
            old(self).wf(),
            !old(self).frozen,
            old(self).open@.len() > 0,
        ensures
            final(self).wf(),
            final(self)@ == old(self)@,
            final(self).open@.len() == 0,
            final(self).keys == old(self).keys,
            final(self).frozen == old(self).frozen,
            final(self).block_bytes == old(self).block_bytes,
            final(self).level == old(self).level,
    {
        let mut plain: Vec<u8> = Vec::new();
        core::mem::swap(&mut self.open, &mut plain);
        let frame: Option<Vec<u8>> = if plain.len() <= MAX_BLOCK {
            compress(plain.as_slice(), self.level)
        } else {
            None
        };
        let block = Block::close(plain, frame, self.level);
        self.blocks.push(block);
        proof {
            assert forall|i: int| 0 <= i < self.keys.len() implies self.slot_ok(i) by {
                assert(old(self).slot_ok(i));
                let b = self.slots[i].block as int;
                assert(self.payload_of(b) == old(self).payload_of(b));
            }
            assert forall|k: Seq<u8>| #[trigger] self.model@.dom().contains(k) implies exists|i: int|
                0 <= i < self.keys.len() && #[trigger] self.keys[i]@ == k by {
                let i = choose|i: int|
                    0 <= i < old(self).keys.len() && #[trigger] old(self).keys[i]@ == k;
                assert(self.keys[i]@ == k);
            }
        }
    }

    /// What `insert` answers, given the state of the map and the size of the
    /// definition.
    pub open spec fn insert_outcome(frozen: bool, size: nat) -> Result<(), StoreError> {
        if frozen {
            Err(StoreError::Frozen)
        } else if size > MAX_DEFINITION {
            Err(StoreError::TooLarge)
        } else {
            Ok(())
        }
    }

    /// Stores `definition` under `word`. An entry already stored under the
    /// same folded head-word is replaced, head-word and definition.
    pub fn insert(&mut self, word: &[u8], definition: &[u8]) -> (r: Result<(), StoreError>)
        requires
            old(self).wf(),
        ensures
            final(self).wf(),
            final(self).is_frozen() == old(self).is_frozen(),
            final(self).block_bytes() == old(self).block_bytes(),
            final(self).level() == old(self).level(),
            r == Self::insert_outcome(old(self).is_frozen(), definition@.len()),
            r is Ok ==> final(self)@ == old(self)@.insert(fold(word@), (word@, definition@)),
            r is Err ==> final(self)@ == old(self)@,
    {
        if self.frozen {
            return Err(StoreError::Frozen);
        }
        if definition.len() > MAX_DEFINITION {
            return Err(StoreError::TooLarge);
        }
        if self.open.len() > 0 && (self.open.len() >= self.block_bytes || LENGTH_PREFIX
            + definition.len() > self.block_bytes - self.open.len()) {
            self.seal();
        }
        let key: Vec<u8> = to_lower(word);
        let (found, at) = self.find(key.as_slice());
        let ghost before = *self;
        let offset: usize = self.open.len() + LENGTH_PREFIX;
        let prefix: Vec<u8> = u64_to_le_bytes(definition.len() as u64);
        append(&mut self.open, prefix.as_slice());
        append(&mut self.open, definition);
        let slot = Slot { block: self.blocks.len(), offset, len: definition.len() };
        let spelled: Vec<u8> = copy_of(word);
        if found {
            self.slots.set(at, slot);
            self.words.set(at, spelled);
        } else {
            self.keys.insert(at, key);
            self.slots.insert(at, slot);
            self.words.insert(at, spelled);
        }
        self.model = Ghost(self.model@.insert(fold(word@), (word@, definition@)));
        proof {
            let k = fold(word@);
            lemma_fold_idempotent(word@);
            let open = self.open@;
            assert(open == before.open@ + prefix@ + definition@);
            assert(open.subrange(offset - LENGTH_PREFIX, offset as int) =~= prefix@);
            assert(open.subrange(offset as int, offset + definition@.len()) =~= definition@);
            assert(self.payload_of(slot.block as int) == open);
            assert forall|i: int| 0 <= i < self.keys.len() implies self.slot_ok(i) by {
                if i == at {
                    assert(self.slots[i] == slot);
                    assert(self.keys[i]@ == k);
                    assert(self.words[i]@ == word@);
                } else {
                    let j = if found || i < at {
                        i
                    } else {
                        i - 1
                    };
                    assert(before.slot_ok(j));
                    assert(self.slots[i] == before.slots[j]);
                    assert(self.keys[i] == before.keys[j]);
                    assert(self.words[i] == before.words[j]);
                    assert(self.keys[i]@ != k) by {
                        if j < at {
                            lemma_lex_asymmetric(before.keys[j]@, k);
                        } else {
                            lemma_lex_asymmetric(k, before.keys[j]@);
                        }
                    }
                    let s = self.slots[i];
                    let b = s.block as int;
                    if b < self.blocks.len() {
                        assert(self.payload_of(b) == before.payload_of(b));
                    } else {
                        let was = before.open@;
                        assert(open.subrange(s.offset - LENGTH_PREFIX, s.offset as int)
                            =~= was.subrange(s.offset - LENGTH_PREFIX, s.offset as int));
                        assert(open.subrange(s.offset as int, s.offset + s.len) =~= was.subrange(
                            s.offset as int,
                            s.offset + s.len,
                        ));
                    }
                }
            }
            assert(ascending(self.keys@)) by {
                if !found {
                    assert forall|i: int, j: int| 0 <= i < j < self.keys.len() implies lex_lt(
                        #[trigger] self.keys[i]@,
                        #[trigger] self.keys[j]@,
                    ) by {
                        let oi = if i < at {
                            i
                        } else {
                            i - 1
                        };
                        let oj = if j < at {
                            j
                        } else {
                            j - 1
                        };
                        if i != at {
                            assert(self.keys[i] == before.keys[oi]);
                        }
                        if j != at {
                            assert(self.keys[j] == before.keys[oj]);
                        }
                    }
                }
            }
            assert forall|x: Seq<u8>| #[trigger] self.model@.dom().contains(x) implies exists|i: int|
                0 <= i < self.keys.len() && #[trigger] self.keys[i]@ == x by {
                if x == k {
                    assert(self.keys[at as int]@ == x);
                } else {
                    let j = choose|j: int|
                        0 <= j < before.keys.len() && #[trigger] before.keys[j]@ == x;
                    let i = if found || j < at {
                        j
                    } else {
                        j + 1
                    };
                    assert(self.keys[i] == before.keys[j]);
                }
            }
        }
        Ok(())
    }

    /// The map after a sequence of entries has been stored in order.
    pub open spec fn insert_all(m: Map<Seq<u8>, Entry>, entries: Seq<Entry>) -> Map<Seq<u8>, Entry>
        decreases entries.len(),
    {
        if entries.len() == 0 {
            m
        } else {
            Self::insert_all(m, entries.drop_last()).insert(fold(entries.last().0), entries.last())
        }
    }

    /// The last entry stored under a head-word is the one that stays: if no
    /// later entry of the sequence has the folded head-word of entry `i`, the
    /// map holds entry `i` under it.
    pub proof fn lemma_last_entry_stays(m: Map<Seq<u8>, Entry>, entries: Seq<Entry>, i: int)
        requires
            0 <= i < entries.len(),
            forall|j: int| i < j < entries.len() ==> fold(entries[j].0) != fold(entries[i].0),
        ensures
            Self::insert_all(m, entries).dom().contains(fold(entries[i].0)),
            Self::insert_all(m, entries)[fold(entries[i].0)] == entries[i],
        decreases entries.len(),
    {
        if i < entries.len() - 1 {
            Self::lemma_last_entry_stays(m, entries.drop_last(), i);
        }
    }

    /// Whether every definition of a sequence of entries is short enough to
    /// be stored.
    pub open spec fn all_fit(entries: Seq<(Seq<u8>, Seq<u8>)>) -> bool {
        forall|i: int| 0 <= i < entries.len() ==> (#[trigger] entries[i]).1.len() <= MAX_DEFINITION
    }

    /// What `extend` answers.
    pub open spec fn extend_outcome(
        frozen: bool,
        entries: Seq<(Seq<u8>, Seq<u8>)>,
    ) -> Result<(), StoreError> {
        if frozen {
            Err(StoreError::Frozen)
        } else if !Self::all_fit(entries) {
            Err(StoreError::TooLarge)
        } else {
            Ok(())
        }
    }

    /// Stores a batch, all of it or none: an entry that cannot be stored
    /// leaves the map as it was.
    pub fn extend(&mut self, batch: &Vec<(Vec<u8>, Vec<u8>)>) -> (r: Result<(), StoreError>)
        requires
            old(self).wf(),
        ensures
            final(self).wf(),
            final(self).is_frozen() == old(self).is_frozen(),
            final(self).block_bytes() == old(self).block_bytes(),
            final(self).level() == old(self).level(),
            r == Self::extend_outcome(old(self).is_frozen(), pairs(batch@)),
            r is Ok ==> final(self)@ == Self::insert_all(old(self)@, pairs(batch@)),
            r is Err ==> final(self)@ == old(self)@,
    {
        if self.frozen {
            return Err(StoreError::Frozen);
        }
        let ghost entries = pairs(batch@);
        let mut i: usize = 0;
        while i < batch.len()
            invariant
                i <= batch.len(),
                *self == *old(self),
                self.wf(),
                !self.frozen,
                entries == pairs(batch@),
                Self::all_fit(entries.take(i as int)),
            decreases batch.len() - i,
        {
            if batch[i].1.len() > MAX_DEFINITION {
                assert(entries[i as int].1.len() > MAX_DEFINITION);
                return Err(StoreError::TooLarge);
            }
            i += 1;
        }
        assert(entries.take(i as int) =~= entries);
        let mut n: usize = 0;
        while n < batch.len()
            invariant
                n <= batch.len(),
                self.wf(),
                !self.is_frozen(),
                entries == pairs(batch@),
                Self::all_fit(entries),
                self.block_bytes() == old(self).block_bytes(),
                self.level() == old(self).level(),
                self@ == Self::insert_all(old(self)@, entries.take(n as int)),
            decreases batch.len() - n,
        {
            assert(entries[n as int].1 == batch@[n as int].1@);
            let stored = self.insert(batch[n].0.as_slice(), batch[n].1.as_slice());
            assert(stored is Ok);
            n += 1;
            assert(entries.take(n as int).drop_last() =~= entries.take(n - 1));
        }
        assert(entries.take(n as int) =~= entries);
        Ok(())
    }

    /// Closes the open block and compresses every block that is not
    /// compressed yet and is not too large to be; after that the map takes
    /// no more entries. On a map that is already frozen this does nothing
    /// and succeeds. If the compressor fails the map stays open, with its
    /// contents intact.
    pub fn finalize(&mut self) -> (r: Result<(), StoreError>)
        requires
            old(self).wf(),
        ensures
            final(self).wf(),
            final(self)@ == old(self)@,
            final(self).block_bytes() == old(self).block_bytes(),
            final(self).level() == old(self).level(),
            old(self).is_frozen() ==> r is Ok && *final(self) == *old(self),
            old(self)@ == Map::<Seq<u8>, Entry>::empty() ==> r is Ok,
            r is Ok ==> final(self).is_frozen(),
            r is Err ==> r == Err::<(), StoreError>(StoreError::Compression)
                && !final(self).is_frozen(),
    {
        if self.frozen {
            return Ok(());
        }
        proof {
            if self@ == Map::<Seq<u8>, Entry>::empty() && self.keys.len() > 0 {
                assert(self.slot_ok(0));
            }
        }
        if self.open.len() > 0 {
            self.seal();
        }
        let mut b: usize = 0;
        while b < self.blocks.len()
            invariant
                b <= self.blocks.len(),
                self.wf(),
                !self.frozen,
                !old(self).frozen,
                old(self)@ == Map::<Seq<u8>, Entry>::empty() ==> self.blocks.len() == 0,
                self.open@.len() == 0,
                self@ == old(self)@,
                self.block_bytes == old(self).block_bytes,
                self.level == old(self).level,
                forall|c: int| 0 <= c < b ==> (#[trigger] self.blocks[c]).is_settled(),
            decreases self.blocks.len() - b,
        {
            if !self.blocks[b].packed && self.blocks[b].size <= MAX_BLOCK {
                assert(self.blocks[b as int].wf());
                let plain: Vec<u8> = copy_range(
                    self.blocks[b].bytes.as_slice(),
                    0,
                    self.blocks[b].bytes.len(),
                );
                let frame = compress(plain.as_slice(), self.level);
                let block: Block = match Block::pack(plain, frame, self.level) {
                    Ok(block) => block,
                    Err(e) => {
                        return Err(e);
                    },
                };
                let ghost before = *self;
                self.blocks.set(b, block);
                proof {
                    assert forall|i: int| 0 <= i < self.keys.len() implies self.slot_ok(i) by {
                        assert(before.slot_ok(i));
                        let s = self.slots[i].block as int;
                        assert(self.payload_of(s) == before.payload_of(s));
                    }
                    assert forall|k: Seq<u8>| #[trigger]
                        self.model@.dom().contains(k) implies exists|i: int|
                        0 <= i < self.keys.len() && #[trigger] self.keys[i]@ == k by {
                        let i = choose|i: int|
                            0 <= i < before.keys.len() && #[trigger] before.keys[i]@ == k;
                        assert(self.keys[i]@ == k);
                    }
                    assert forall|c: int| 0 <= c < self.blocks.len() implies (
                    #[trigger] self.blocks[c]).wf() by {
                        if c != b {
                            assert(self.blocks[c] == before.blocks[c]);
                        }
                    }
                }
            }
            b += 1;
        }
        let ghost before = *self;
        self.frozen = true;
        proof {
            assert forall|i: int| 0 <= i < self.keys.len() implies self.slot_ok(i) by {
                assert(before.slot_ok(i));
            }
        }
        Ok(())
    }

    /// `k` is the smallest key of `m` that begins with `prefix`.
    pub open spec fn is_least_with_prefix(m: Map<Seq<u8>, Entry>, prefix: Seq<u8>, k: Seq<u8>) -> bool {
        &&& m.dom().contains(k)
        &&& has_prefix(k, prefix)
        &&& forall|o: Seq<u8>| #[trigger]
            m.dom().contains(o) && has_prefix(o, prefix) ==> o == k || lex_lt(k, o)
    }

    /// The first place at or before `j` whose key begins with `p`.
    proof fn lemma_first_with_prefix(&self, p: Seq<u8>, j: int) -> (i: int)
        requires
            0 <= j < self.keys.len(),
            has_prefix(self.keys[j]@, p),
        ensures
            0 <= i <= j,
            has_prefix(self.keys[i]@, p),
            forall|t: int| 0 <= t < i ==> !has_prefix(#[trigger] self.keys[t]@, p),
        decreases j,
    {
        if exists|t: int| 0 <= t < j && has_prefix(#[trigger] self.keys[t]@, p) {
            let t = choose|t: int| 0 <= t < j && has_prefix(#[trigger] self.keys[t]@, p);
            self.lemma_first_with_prefix(p, t)
        } else {
            j
        }
    }

    /// Where some key begins with `p`, one of them is the smallest.
    pub proof fn lemma_least_with_prefix(&self, p: Seq<u8>, k: Seq<u8>)
        requires
            self.wf(),
            self@.dom().contains(k),
            has_prefix(k, p),
        ensures
            exists|m: Seq<u8>| Self::is_least_with_prefix(self@, p, m),
    {
        let j = choose|j: int| 0 <= j < self.keys.len() && #[trigger] self.keys[j]@ == k;
        let i = self.lemma_first_with_prefix(p, j);
        let least = self.keys[i]@;
        assert(self.slot_ok(i));
        assert forall|o: Seq<u8>| #[trigger]
            self@.dom().contains(o) && has_prefix(o, p) implies o == least || lex_lt(least, o) by {
            let t = choose|t: int| 0 <= t < self.keys.len() && #[trigger] self.keys[t]@ == o;
            if t > i {
                assert(lex_lt(self.keys[i]@, self.keys[t]@));
            }
        }
        assert(Self::is_least_with_prefix(self@, p, least));
    }

    /// `answer` is what a prefix query for `prefix` with `limit` must return
    /// on the map `m`: head-words of `m`, as they were stored, whose folded
    /// form begins with `prefix`, in ascending byte order of the folded form,
    /// the smallest `limit` of them or all if there are fewer.
    pub open spec fn is_prefix_answer(
        m: Map<Seq<u8>, Entry>,
        prefix: Seq<u8>,
        limit: nat,
        answer: Seq<Vec<u8>>,
    ) -> bool {
        &&& answer.len() <= limit
        &&& forall|i: int, j: int|
            0 <= i < j < answer.len() ==> lex_lt(
                fold((#[trigger] answer[i])@),
                fold((#[trigger] answer[j])@),
            )
        &&& forall|i: int|
            0 <= i < answer.len() ==> {
                let k = fold((#[trigger] answer[i])@);
                m.dom().contains(k) && m[k].0 == answer[i]@ && has_prefix(k, prefix)
            }
        &&& forall|k: Seq<u8>| #[trigger]
            m.dom().contains(k) && has_prefix(k, prefix) ==> (exists|i: int|
                0 <= i < answer.len() && fold((#[trigger] answer[i])@) == k) || (answer.len()
                == limit && (limit == 0 || lex_lt(fold(answer[limit - 1]@), k)))
    }

    /// Prefix match: up to `limit` head-words that begin with `word`, both
    /// compared in folded form, in ascending byte order of the folded form.
    /// The head-words come back as they were stored.
    pub fn prefix_find(&self, word: &[u8], limit: usize) -> (r: Vec<Vec<u8>>)
        requires
            self.wf(),
        ensures
            Self::is_prefix_answer(self@, fold(word@), limit as nat, r@),
            forall|i: int| 0 <= i < r@.len() ==> has_prefix(fold(#[trigger] r@[i]@), fold(word@)),
            r@.len() == 0 && limit > 0 ==> forall|k: Seq<u8>| #[trigger]
                self@.dom().contains(k) ==> !has_prefix(k, fold(word@)),
    {
        let prefix: Vec<u8> = to_lower(word);
        let (_found, lo) = self.find(prefix.as_slice());
        let mut out: Vec<Vec<u8>> = Vec::new();
        let mut i: usize = lo;
        while i < self.keys.len() && out.len() < limit && starts_with(
            self.keys[i].as_slice(),
            prefix.as_slice(),
        )
            invariant
                self.wf(),
                lo <= i <= self.keys.len(),
                out.len() == i - lo,
                out.len() <= limit,
                forall|j: int| 0 <= j < out.len() ==> (#[trigger] out[j])@ == self.words[lo + j]@,
                forall|j: int| lo <= j < i ==> has_prefix(#[trigger] self.keys[j]@, prefix@),
            decreases self.keys.len() - i,
        {
            out.push(copy_of(self.words[i].as_slice()));
            i += 1;
        }
        proof {
            let p = prefix@;
            assert forall|j: int| 0 <= j < out.len() implies fold((#[trigger] out[j])@)
                == self.keys[lo + j]@ && self@.dom().contains(fold(out[j]@)) && self@[fold(
                out[j]@,
            )].0 == out[j]@ && has_prefix(fold(out[j]@), p) by {
                assert(self.slot_ok(lo + j));
            }
            assert forall|a: int, b: int| 0 <= a < b < out.len() implies lex_lt(
                fold((#[trigger] out[a])@),
                fold((#[trigger] out[b])@),
            ) by {
                assert(lex_lt(self.keys[lo + a]@, self.keys[lo + b]@));
            }
            assert forall|k: Seq<u8>| #[trigger]
                self@.dom().contains(k) && has_prefix(k, p) implies (exists|j: int|
                0 <= j < out.len() && fold((#[trigger] out[j])@) == k) || (out.len() == limit && (
                limit == 0 || lex_lt(fold(out[limit - 1]@), k))) by {
                let n = choose|n: int| 0 <= n < self.keys.len() && #[trigger] self.keys[n]@ == k;
                lemma_prefix_not_less(k, p);
                assert(n >= lo);
                if n < i {
                    assert(fold(out[n - lo]@) == k);
                } else if out.len() == limit {
                    if limit > 0 {
                        assert(fold(out[limit - 1]@) == self.keys[i - 1]@);
                        assert(lex_lt(self.keys[i - 1]@, self.keys[n]@));
                    }
                } else {
                    // the scan stopped at a key that does not extend the prefix
                    assert(i < self.keys.len());
                    let stop = self.keys[i as int]@;
                    assert(!has_prefix(stop, p));
                    assert(!lex_lt(stop, p)) by {
                        if stop != p {
                            lemma_lex_asymmetric(p, stop);
                        }
                    }
                    assert(n > i);
                    lemma_prefix_block_ends(p, stop, k);
                }
            }
        }
        out
    }
}

} // verus!
