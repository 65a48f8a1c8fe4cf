//! Table blocks and the block iterator.
//!
//! A block holds prefix-compressed entries. Each entry starts with a
//! four-byte header — `overlap` and `diff` as 16-bit little-endian
//! counts — followed by `diff` bytes of key differential and the
//! encoded value. The first entry's differential is the block's base
//! key; every entry's key is the first `overlap` bytes of the base key
//! followed by its differential.

use vstd::prelude::*;
use core::cmp::Ordering;
use crate::error::Error;
use crate::format::{compare_key, lemma_compare_key_trans, spec_compare_key};
use crate::value::{spec_value_enc, Value};

verus! {

/// Size of a block-entry header: two 16-bit counts.
pub const HEADER_SIZE: usize = 4;

/// Errors of the iterator layers, cheap to copy across them.
#[derive(Debug)]
pub enum IteratorError {
    /// The iterator moved past either end.
    EOF,
    /// A stringified lower-level failure.
    Error(String),
}

impl Clone for IteratorError {
    fn clone(&self) -> (r: Self)
        ensures
            r is EOF <==> self is EOF,
    {
        match self {
            IteratorError::EOF => IteratorError::EOF,
            IteratorError::Error(s) => IteratorError::Error(s.clone()),
        }
    }
}

impl IteratorError {
    /// Whether the iterator has merely reached its end.
    pub fn is_eof(&self) -> (r: bool)
        ensures
            r == (self is EOF),
    {
        match self {
            IteratorError::EOF => true,
            IteratorError::Error(_) => false,
        }
    }

    /// Whether an optional error is exactly end-of-iteration.
    pub fn check_eof(err: &Option<IteratorError>) -> (r: bool)
        ensures
            r == (err matches Some(e) && e is EOF),
    {
        match err {
            Some(IteratorError::EOF) => true,
            _ => false,
        }
    }
}

/// Where a seek starts from.
#[derive(Clone, Copy, PartialEq, Eq, Structural, Debug)]
pub enum SeekPos {
    /// Search the whole block.
    Origin,
    /// Search from the current position on.
    Current,
}

/// A 16-bit little-endian count.
pub open spec fn le16(lo: u8, hi: u8) -> nat {
    (lo + 256 * hi) as nat
}

/// Start of entry `i` in the data region.
pub open spec fn ent_start(offs: Seq<u32>, i: int) -> int {
    offs[i] as int
}

/// End of entry `i`: the next entry's start, or the end of the region.
pub open spec fn ent_end(data: Seq<u8>, offs: Seq<u32>, i: int) -> int {
    if i + 1 == offs.len() {
        data.len() as int
    } else {
        offs[i + 1] as int
    }
}

/// The `overlap` count of entry `i`.
pub open spec fn ent_overlap(data: Seq<u8>, offs: Seq<u32>, i: int) -> nat {
    le16(data[ent_start(offs, i)], data[ent_start(offs, i) + 1])
}

/// The `diff` count of entry `i`.
pub open spec fn ent_diff_len(data: Seq<u8>, offs: Seq<u32>, i: int) -> nat {
    le16(data[ent_start(offs, i) + 2], data[ent_start(offs, i) + 3])
}

/// The key differential of entry `i`.
pub open spec fn ent_diff(data: Seq<u8>, offs: Seq<u32>, i: int) -> Seq<u8> {
    data.subrange(
        ent_start(offs, i) + 4,
        ent_start(offs, i) + 4 + ent_diff_len(data, offs, i) as int,
    )
}

/// The encoded value bytes of entry `i`.
pub open spec fn ent_val(data: Seq<u8>, offs: Seq<u32>, i: int) -> Seq<u8> {
    data.subrange(
        ent_start(offs, i) + 4 + ent_diff_len(data, offs, i) as int,
        ent_end(data, offs, i),
    )
}

/// The block's base key: the first entry's differential.
pub open spec fn blk_base_key(data: Seq<u8>, offs: Seq<u32>) -> Seq<u8> {
    ent_diff(data, offs, 0)
}

/// The full internal key of entry `i`.
pub open spec fn ent_key(data: Seq<u8>, offs: Seq<u32>, i: int) -> Seq<u8> {
    blk_base_key(data, offs).take(ent_overlap(data, offs, i) as int) + ent_diff(data, offs, i)
}

/// A well-formed block data region: at least one entry, contiguous
/// in-bounds entry regions, a base entry without overlap, overlaps
/// within the base key, and internal keys.
pub open spec fn blk_wf(data: Seq<u8>, offs: Seq<u32>) -> bool {
    &&& 1 <= offs.len()
    &&& offs[0] == 0
    &&& forall|i: int|
        0 <= i < offs.len() ==> ent_start(offs, i) + 4 + (#[trigger] ent_diff_len(data, offs, i))
            <= ent_end(data, offs, i)
    &&& forall|i: int| 0 <= i < offs.len() ==> #[trigger] ent_end(data, offs, i) <= data.len()
    &&& ent_overlap(data, offs, 0) == 0
    &&& forall|i: int|
        0 <= i < offs.len() ==> #[trigger] ent_overlap(data, offs, i) <= blk_base_key(
            data,
            offs,
        ).len()
    &&& forall|i: int| 0 <= i < offs.len() ==> (#[trigger] ent_key(data, offs, i)).len() >= 8
}

/// Entries in strictly increasing key order.
pub open spec fn blk_sorted(data: Seq<u8>, offs: Seq<u32>) -> bool {
    forall|i: int|
        0 <= i < offs.len() - 1 ==> #[trigger] spec_compare_key(
            ent_key(data, offs, i),
            ent_key(data, offs, i + 1),
        ) == Ordering::Less
}

/// In a sorted block every earlier key is strictly below every later one.
#[verifier::rlimit(100)]
pub proof fn lemma_sorted_pair(data: Seq<u8>, offs: Seq<u32>, i: int, j: int)
    requires
        blk_wf(data, offs),
        blk_sorted(data, offs),
        0 <= i < j < offs.len(),
    ensures
        spec_compare_key(ent_key(data, offs, i), ent_key(data, offs, j)) == Ordering::Less,
    decreases j - i,
{
    if j == i + 1 {
    } else {
        lemma_sorted_pair(data, offs, i, j - 1);
        lemma_compare_key_trans(ent_key(data, offs, i), ent_key(data, offs, j - 1), ent_key(
            data,
            offs,
            j,
        ));
    }
}

/// The unit of table I/O: prefix-compressed entries plus their start
/// offsets. The data region here holds exactly the entry bytes, so
/// `entries_index_start` marks its end.
pub struct Block {
    /// The entry bytes.
    pub data: Vec<u8>,
    /// Start offset of each entry within `data`.
    pub entry_offsets: Vec<u32>,
    /// Where the entry bytes end.
    pub entries_index_start: usize,
}

impl Block {
    /// Well-formedness of the block.
    pub open spec fn wf(&self) -> bool {
        &&& self.entries_index_start == self.data.len()
        &&& blk_wf(self.data@, self.entry_offsets@)
    }

    /// Entries in strictly increasing key order.
    pub open spec fn sorted(&self) -> bool {
        blk_sorted(self.data@, self.entry_offsets@)
    }

    /// Number of entries.
    pub open spec fn n(&self) -> int {
        self.entry_offsets.len() as int
    }

    /// The key of entry `i`.
    pub open spec fn key(&self, i: int) -> Seq<u8> {
        ent_key(self.data@, self.entry_offsets@, i)
    }

    /// The encoded value bytes of entry `i`.
    pub open spec fn val(&self, i: int) -> Seq<u8> {
        ent_val(self.data@, self.entry_offsets@, i)
    }

    /// A deep copy, standing in for a shared block handle.
    pub fn clone(&self) -> (r: Block)
        ensures
            r.data@ == self.data@,
            r.entry_offsets@ == self.entry_offsets@,
            r.entries_index_start == self.entries_index_start,
    {
        Block {
            data: clone_bytes(&self.data),
            entry_offsets: clone_u32s(&self.entry_offsets),
            entries_index_start: self.entries_index_start,
        }
    }
}

/// Copies a byte vector.
pub fn clone_bytes(v: &Vec<u8>) -> (r: Vec<u8>)
    ensures
        r@ == v@,
{
    let mut r: Vec<u8> = Vec::new();
    let mut i: usize = 0;
    while i < v.len()
        invariant
            i <= v.len(),
            r@ == v@.take(i as int),
        decreases v.len() - i,
    {
        r.push(v[i]);
        proof {
            assert(v@.take(i + 1) =~= v@.take(i as int) + seq![v@[i as int]]);
        }
        i = i + 1;
    }
    proof {
        assert(v@.take(v@.len() as int) =~= v@);
    }
    r
}

/// Copies an offset vector.
fn clone_u32s(v: &Vec<u32>) -> (r: Vec<u32>)
    ensures
        r@ == v@,
{
    let mut r: Vec<u32> = Vec::new();
    let mut i: usize = 0;
    while i < v.len()
        invariant
            i <= v.len(),
            r@ == v@.take(i as int),
        decreases v.len() - i,
    {
        r.push(v[i]);
        proof {
            assert(v@.take(i + 1) =~= v@.take(i as int) + seq![v@[i as int]]);
        }
        i = i + 1;
    }
    proof {
        assert(v@.take(v@.len() as int) =~= v@);
    }
    r
}

/// Reads a 16-bit little-endian count at `at`.
fn read_u16_le(data: &Vec<u8>, at: usize) -> (r: u16)
    requires
        at + 2 <= data.len(),
    ensures
        r as nat == le16(data@[at as int], data@[at as int + 1]),
{
    (data[at] as u16) + 256 * (data[at + 1] as u16)
}

/// Longest shared prefix of `base` and `key`, capped to a 16-bit count.
fn key_overlap(base: &Vec<u8>, key: &Vec<u8>) -> (r: usize)
    ensures
        r <= base.len(),
        r <= key.len(),
        r <= 0xffff,
        base@.take(r as int) == key@.take(r as int),
{
    let mut i: usize = 0;
    while i < base.len() && i < key.len() && i < 0xffff
        invariant
            i <= base.len(),
            i <= key.len(),
            i <= 0xffff,
            forall|j: int| 0 <= j < i ==> base@[j] == key@[j],
        decreases base.len() - i,
    {
        if base[i] != key[i] {
            break;
        }
        i = i + 1;
    }
    proof {
        assert(base@.take(i as int) =~= key@.take(i as int));
    }
    i
}

/// Appending an entry leaves every earlier entry's region, counts,
/// differential and value bytes as they were.
proof fn lemma_ent_grow(d1: Seq<u8>, chunk: Seq<u8>, offs: Seq<u32>, j: int)
    requires
        0 <= j < offs.len(),
        d1.len() <= u32::MAX,
        ent_start(offs, j) + 4 + ent_diff_len(d1, offs, j) <= ent_end(d1, offs, j),
        ent_end(d1, offs, j) <= d1.len(),
    ensures
        ({
            let d2 = d1 + chunk;
            let offs2 = offs.push(d1.len() as u32);
            &&& ent_start(offs2, j) == ent_start(offs, j)
            &&& ent_end(d2, offs2, j) == ent_end(d1, offs, j)
            &&& ent_overlap(d2, offs2, j) == ent_overlap(d1, offs, j)
            &&& ent_diff_len(d2, offs2, j) == ent_diff_len(d1, offs, j)
            &&& ent_diff(d2, offs2, j) == ent_diff(d1, offs, j)
            &&& ent_val(d2, offs2, j) == ent_val(d1, offs, j)
        }),
{
    let d2 = d1 + chunk;
    let offs2 = offs.push(d1.len() as u32);
    assert(offs2[j] == offs[j]);
    if j + 1 < offs.len() {
        assert(offs2[j + 1] == offs[j + 1]);
    }
    assert(ent_end(d2, offs2, j) == ent_end(d1, offs, j));
    assert(forall|k: int| 0 <= k < d1.len() ==> d2[k] == d1[k]);
    assert(ent_diff(d2, offs2, j) =~= ent_diff(d1, offs, j));
    assert(ent_val(d2, offs2, j) =~= ent_val(d1, offs, j));
}

/// Builds a block from internal keys in strictly increasing order and
/// their values. The bounds keep every count inside its 16-bit header
/// field and every offset inside 32 bits.
#[verifier::rlimit(100)]
pub fn build_block(keys: &Vec<Vec<u8>>, values: &Vec<Value>) -> (r: Block)
    requires
        keys.len() == values.len(),
        1 <= keys.len() <= 0x1000,
        forall|i: int| 0 <= i < keys.len() ==> 8 <= (#[trigger] keys@[i])@.len() <= 0xffff,
        forall|i: int| 0 <= i < values.len() ==> (#[trigger] values@[i]).value@.len() <= 0xffff,
        forall|i: int|
            0 <= i < keys.len() - 1 ==> #[trigger] spec_compare_key(keys@[i]@, keys@[i + 1]@)
                == Ordering::Less,
    ensures
        r.wf(),
        r.sorted(),
        r.n() == keys.len(),
        forall|i: int| 0 <= i < keys.len() ==> r.key(i) == (#[trigger] keys@[i])@,
        forall|i: int|
            0 <= i < keys.len() ==> r.val(i) == spec_value_enc(
                (#[trigger] values@[i]).meta,
                values@[i].user_meta,
                values@[i].expires_at,
                values@[i].value@,
            ),
        r.data@.len() <= 0x28000000,
{
    let mut data: Vec<u8> = Vec::new();
    let mut offs: Vec<u32> = Vec::new();
    let mut i: usize = 0;
    while i < keys.len()
        invariant
            keys.len() == values.len(),
            1 <= keys.len() <= 0x1000,
            forall|k: int| 0 <= k < keys.len() ==> 8 <= (#[trigger] keys@[k])@.len() <= 0xffff,
            forall|k: int| 0 <= k < values.len() ==> (#[trigger] values@[k]).value@.len() <= 0xffff,
            i <= keys.len(),
            offs.len() == i,
            data.len() <= i * 131086,
            i >= 1 ==> blk_wf(data@, offs@),
            i >= 1 ==> blk_base_key(data@, offs@) == keys@[0]@,
            forall|j: int| 0 <= j < i ==> ent_key(data@, offs@, j) == (#[trigger] keys@[j])@,
            forall|j: int|
                0 <= j < i ==> ent_val(data@, offs@, j) == spec_value_enc(
                    (#[trigger] values@[j]).meta,
                    values@[j].user_meta,
                    values@[j].expires_at,
                    values@[j].value@,
                ),
        decreases keys.len() - i,
    {
        let key = &keys[i];
        let overlap: usize = if i == 0 {
            0
        } else {
            key_overlap(&keys[0], key)
        };
        let diff_len = key.len() - overlap;
        let mut chunk: Vec<u8> = Vec::new();
        chunk.push((overlap % 256) as u8);
        chunk.push((overlap / 256) as u8);
        chunk.push((diff_len % 256) as u8);
        chunk.push((diff_len / 256) as u8);
        let mut j: usize = overlap;
        while j < key.len()
            invariant
                overlap <= j <= key.len(),
                key == &keys@[i as int],
                i < keys.len() == values.len(),
                chunk@ == seq![
                    (overlap % 256) as u8,
                    (overlap / 256) as u8,
                    (diff_len % 256) as u8,
                    (diff_len / 256) as u8,
                ] + key@.subrange(overlap as int, j as int),
            decreases key.len() - j,
        {
            chunk.push(key[j]);
            proof {
                assert(key@.subrange(overlap as int, j + 1) =~= key@.subrange(
                    overlap as int,
                    j as int,
                ) + seq![key@[j as int]]);
            }
            j = j + 1;
        }
        values[i].encode(&mut chunk);
        let ghost d1 = data@;
        let ghost offs1 = offs@;
        let ghost venc = spec_value_enc(
            values@[i as int].meta,
            values@[i as int].user_meta,
            values@[i as int].expires_at,
            values@[i as int].value@,
        );
        proof {
            crate::codec::lemma_varint_len_u64(values@[i as int].expires_at as nat);
            crate::codec::lemma_varint_shape(values@[i as int].expires_at as nat);
            assert(chunk@ =~= seq![
                (overlap % 256) as u8,
                (overlap / 256) as u8,
                (diff_len % 256) as u8,
                (diff_len / 256) as u8,
            ] + key@.subrange(overlap as int, key@.len() as int) + venc);
            assert(chunk.len() <= 131086);
        }
        offs.push(data.len() as u32);
        data.extend_from_slice(chunk.as_slice());
        proof {
            let d2 = data@;
            let offs2 = offs@;
            let st = d1.len() as int;
            assert(offs2 == offs1.push(d1.len() as u32));
            assert(d2 == d1 + chunk@);
            assert forall|k: int| 0 <= k < i implies {
                &&& ent_start(offs2, k) == ent_start(offs1, k)
                &&& ent_end(d2, offs2, k) == ent_end(d1, offs1, k)
                &&& ent_overlap(d2, offs2, k) == ent_overlap(d1, offs1, k)
                &&& ent_diff_len(d2, offs2, k) == ent_diff_len(d1, offs1, k)
                &&& ent_diff(d2, offs2, k) == ent_diff(d1, offs1, k)
                &&& ent_val(d2, offs2, k) == ent_val(d1, offs1, k)
            } by {
                lemma_ent_grow(d1, chunk@, offs1, k);
            };
            if i > 0 {
                assert(blk_base_key(d2, offs2) == blk_base_key(d1, offs1)) by {
                    lemma_ent_grow(d1, chunk@, offs1, 0);
                };
            }
            // the fresh entry's region and parsed fields
            assert(ent_start(offs2, i as int) == st);
            assert(ent_end(d2, offs2, i as int) == d2.len());
            assert(d2[st] == (overlap % 256) as u8);
            assert(d2[st + 1] == (overlap / 256) as u8);
            assert(d2[st + 2] == (diff_len % 256) as u8);
            assert(d2[st + 3] == (diff_len / 256) as u8);
            assert(ent_overlap(d2, offs2, i as int) == overlap);
            assert(ent_diff_len(d2, offs2, i as int) == diff_len);
            assert(ent_diff(d2, offs2, i as int) =~= key@.subrange(overlap as int, key@.len() as int));
            assert(ent_val(d2, offs2, i as int) =~= venc);
            if i == 0 {
                assert(blk_base_key(d2, offs2) == key@.subrange(0, key@.len() as int));
                assert(blk_base_key(d2, offs2) =~= keys@[0]@);
            }
            assert(blk_base_key(d2, offs2) == keys@[0]@);
            assert(blk_base_key(d2, offs2).take(overlap as int) =~= key@.take(overlap as int));
            assert(ent_key(d2, offs2, i as int) =~= key@);
            assert forall|k: int| 0 <= k < i implies ent_key(d2, offs2, k) == (
            #[trigger] keys@[k])@ by {
                assert(ent_key(d1, offs1, k) == keys@[k]@);
            };
            // well-formedness over the grown block
            assert forall|k: int| 0 <= k < offs2.len() implies ent_start(offs2, k) + 4 + (
            #[trigger] ent_diff_len(d2, offs2, k)) <= ent_end(d2, offs2, k) by {
                if k < i {
                } else {
                    assert(ent_diff_len(d2, offs2, k) == diff_len);
                }
            };
            assert forall|k: int| 0 <= k < offs2.len() implies #[trigger] ent_end(d2, offs2, k)
                <= d2.len() by {
                if k < i {
                    assert(ent_end(d2, offs2, k) == ent_end(d1, offs1, k));
                    assert(ent_end(d1, offs1, k) <= d1.len());
                }
            };
            assert forall|k: int| 0 <= k < offs2.len() implies #[trigger] ent_overlap(d2, offs2, k)
                <= blk_base_key(d2, offs2).len() by {
                if k < i {
                    assert(ent_overlap(d2, offs2, k) == ent_overlap(d1, offs1, k));
                }
            };
            assert forall|k: int| 0 <= k < offs2.len() implies (#[trigger] ent_key(
                d2,
                offs2,
                k,
            )).len() >= 8 by {
                assert(ent_key(d2, offs2, k) == keys@[k]@);
            };
            assert(blk_wf(d2, offs2));
        }
        i = i + 1;
    }
    let blen = data.len();
    let b = Block { data, entry_offsets: offs, entries_index_start: blen };
    proof {
        assert forall|k: int| 0 <= k < keys.len() - 1 implies #[trigger] spec_compare_key(
            ent_key(b.data@, b.entry_offsets@, k),
            ent_key(b.data@, b.entry_offsets@, k + 1),
        ) == Ordering::Less by {
            assert(ent_key(b.data@, b.entry_offsets@, k) == keys@[k]@);
            assert(ent_key(b.data@, b.entry_offsets@, k + 1) == keys@[k + 1]@);
        };
    }
    b
}

/// Copies `data[from..to]` out into a fresh vector.
pub(crate) fn bytes_range(data: &Vec<u8>, from: usize, to: usize) -> (r: Vec<u8>)
    requires
        from <= to <= data.len(),
    ensures
        r@ == data@.subrange(from as int, to as int),
{
    let mut r: Vec<u8> = Vec::new();
    let mut i: usize = from;
    while i < to
        invariant
            from <= i <= to <= data.len(),
            r@ == data@.subrange(from as int, i as int),
        decreases to - i,
    {
        r.push(data[i]);
        proof {
            assert(data@.subrange(from as int, i + 1) =~= data@.subrange(from as int, i as int)
                + seq![data@[i as int]]);
        }
        i = i + 1;
    }
    r
}

/// Reads the first entry's differential length: the base key's length.
pub(crate) fn read_first_diff_len(b: &Block) -> (r: u16)
    requires
        b.wf(),
    ensures
        r as nat == ent_diff_len(b.data@, b.entry_offsets@, 0),
        4 + r as int <= b.data.len(),
{
    proof {
        assert(ent_start(b.entry_offsets@, 0) == 0);
        assert(ent_start(b.entry_offsets@, 0) + 4 + ent_diff_len(b.data@, b.entry_offsets@, 0)
            <= ent_end(b.data@, b.entry_offsets@, 0));
        assert(ent_end(b.data@, b.entry_offsets@, 0) <= b.data@.len());
    }
    read_u16_le(&b.data, 2)
}

/// Iterates the entries of one block in either direction, rebuilding
/// each key from the base key, the previous overlap, and the entry's
/// differential.
pub struct BlockIterator {
    /// Index of the current entry.
    pub idx: usize,
    /// The block's base key, extracted on first use.
    pub base_key: Vec<u8>,
    /// Key of the current entry; the buffer is reused.
    pub key: Vec<u8>,
    /// Encoded value bytes of the current entry.
    pub val: Vec<u8>,
    /// The block being iterated.
    pub block: Block,
    /// The previous entry's overlap count, to rebuild the shared prefix.
    pub perv_overlap: u16,
    /// Error of the last operation.
    pub err: Option<IteratorError>,
}

impl BlockIterator {
    /// Structural invariant that every operation preserves: the key
    /// buffer agrees with the base key up to the recorded overlap, and
    /// the base key, once extracted, is the block's.
    pub open spec fn inv(&self) -> bool {
        &&& self.block.wf()
        &&& self.perv_overlap as int <= blk_base_key(
            self.block.data@,
            self.block.entry_offsets@,
        ).len()
        &&& self.key@.len() >= self.perv_overlap as int
        &&& self.key@.take(self.perv_overlap as int) == blk_base_key(
            self.block.data@,
            self.block.entry_offsets@,
        ).take(self.perv_overlap as int)
        &&& (self.base_key@.len() == 0 || self.base_key@ == blk_base_key(
            self.block.data@,
            self.block.entry_offsets@,
        ))
    }

    /// When no error is set, the iterator stands on entry `idx` and
    /// carries its key and value.
    pub open spec fn positioned(&self) -> bool {
        self.err is None ==> {
            &&& self.idx < self.block.n()
            &&& self.key@ == self.block.key(self.idx as int)
            &&& self.val@ == self.block.val(self.idx as int)
            &&& self.perv_overlap as nat == ent_overlap(
                self.block.data@,
                self.block.entry_offsets@,
                self.idx as int,
            )
        }
    }

    /// A fresh iterator over `block`; position it before reading.
    pub fn new(block: Block) -> (r: Self)
        requires
            block.wf(),
        ensures
            r.inv(),
            r.block == block,
            r.err is None,
            r.idx == 0,
            r.base_key@.len() == 0,
            r.key@.len() == 0,
    {
        let r = BlockIterator {
            block,
            err: None,
            base_key: Vec::new(),
            key: Vec::new(),
            val: Vec::new(),
            perv_overlap: 0,
            idx: 0,
        };
        proof {
            assert(r.key@.take(0) =~= blk_base_key(r.block.data@, r.block.entry_offsets@).take(0));
        }
        r
    }

    /// Replaces the block inside the iterator and resets it.
    pub fn set_block(&mut self, block: Block)
        requires
            block.wf(),
        ensures
            final(self).inv(),
            final(self).block == block,
            final(self).err is None,
            final(self).idx == 0,
            final(self).base_key@.len() == 0,
            final(self).key@.len() == 0,
            final(self).val@.len() == 0,
            final(self).perv_overlap == 0,
    {
        self.err = None;
        self.idx = 0;
        self.base_key.clear();
        self.perv_overlap = 0;
        self.key.clear();
        self.val.clear();
        self.block = block;
        proof {
            assert(self.key@.take(0) =~= blk_base_key(
                self.block.data@,
                self.block.entry_offsets@,
            ).take(0));
        }
    }

    /// Positions the iterator at entry `i`; past the end it records
    /// end-of-iteration instead.
    pub fn set_idx(&mut self, i: usize)
        requires
            old(self).inv(),
        ensures
            final(self).inv(),
            final(self).positioned(),
            final(self).block == old(self).block,
            final(self).idx == i,
            i < old(self).block.n() ==> final(self).err is None,
            i >= old(self).block.n() ==> (final(self).err matches Some(e) && e is EOF),
            i >= old(self).block.n() ==> final(self).key == old(self).key && final(self).val
                == old(self).val && final(self).base_key == old(self).base_key
                && final(self).perv_overlap == old(self).perv_overlap,
    {
        self.idx = i;
        if i >= self.block.entry_offsets.len() {
            self.err = Some(IteratorError::EOF);
            return;
        }
        self.err = None;
        let ghost bd = self.block.data@;
        let ghost bo = self.block.entry_offsets@;
        let ghost base = blk_base_key(bd, bo);
        proof {
            assert(ent_start(bo, i as int) + 4 + ent_diff_len(bd, bo, i as int) <= ent_end(
                bd,
                bo,
                i as int,
            ));
            assert(ent_end(bd, bo, i as int) <= bd.len());
            assert(ent_start(bo, 0) + 4 + ent_diff_len(bd, bo, 0) <= ent_end(bd, bo, 0));
            assert(ent_end(bd, bo, 0) <= bd.len());
            assert(ent_overlap(bd, bo, i as int) <= base.len());
        }
        let start_offset = self.block.entry_offsets[i] as usize;
        if self.base_key.len() == 0 {
            let base_diff = read_u16_le(&self.block.data, 2);
            self.base_key = bytes_range(&self.block.data, 4, 4 + base_diff as usize);
            proof {
                assert(self.base_key@ =~= base);
            }
        }
        proof {
            assert(base.len() > 0 ==> self.base_key@ == base);
        }
        let end_offset = if i + 1 == self.block.entry_offsets.len() {
            self.block.entries_index_start
        } else {
            self.block.entry_offsets[i + 1] as usize
        };
        let overlap = read_u16_le(&self.block.data, start_offset);
        let diff_len = read_u16_le(&self.block.data, start_offset + 2);
        proof {
            assert(overlap as nat == ent_overlap(bd, bo, i as int));
            assert(diff_len as nat == ent_diff_len(bd, bo, i as int));
        }
        if overlap > self.perv_overlap {
            self.key.truncate(self.perv_overlap as usize);
            proof {
                assert(self.key@ =~= base.take(self.perv_overlap as int));
            }
            let mut j: usize = self.perv_overlap as usize;
            while j < overlap as usize
                invariant
                    self.perv_overlap as int <= j <= overlap as int,
                    overlap as int <= base.len(),
                    base.len() > 0 ==> self.base_key@ == base,
                    self.base_key@.len() == 0 || self.base_key@ == base,
                    base == blk_base_key(bd, bo),
                    self.block == old(self).block,
                    self.err is None,
                    self.idx == i,
                    bd == self.block.data@,
                    bo == self.block.entry_offsets@,
                    self.key@ == base.take(j as int),
                decreases overlap as int - j,
            {
                self.key.push(self.base_key[j]);
                proof {
                    assert(base.take(j + 1) =~= base.take(j as int) + seq![base[j as int]]);
                }
                j = j + 1;
            }
        }
        self.perv_overlap = overlap;
        self.key.truncate(overlap as usize);
        proof {
            assert(self.key@ =~= base.take(overlap as int));
        }
        let diff_start = start_offset + 4;
        let diff_end = diff_start + diff_len as usize;
        let mut j: usize = diff_start;
        while j < diff_end
            invariant
                diff_start <= j <= diff_end <= self.block.data.len(),
                self.block == old(self).block,
                self.err is None,
                self.idx == i,
                self.perv_overlap == overlap,
                overlap as int <= blk_base_key(bd, bo).len(),
                base.len() > 0 ==> self.base_key@ == base,
                self.base_key@.len() == 0 || self.base_key@ == base,
                base == blk_base_key(bd, bo),
                bd == self.block.data@,
                bo == self.block.entry_offsets@,
                self.key@ == blk_base_key(bd, bo).take(overlap as int) + bd.subrange(
                    diff_start as int,
                    j as int,
                ),
            decreases diff_end - j,
        {
            let b = self.block.data[j];
            self.key.push(b);
            proof {
                assert(bd.subrange(diff_start as int, j + 1) =~= bd.subrange(
                    diff_start as int,
                    j as int,
                ) + seq![bd[j as int]]);
            }
            j = j + 1;
        }
        self.val = bytes_range(&self.block.data, diff_end, end_offset);
        proof {
            assert(ent_diff(bd, bo, i as int) =~= bd.subrange(diff_start as int, diff_end as int));
            assert(self.key@ == ent_key(bd, bo, i as int));
            assert(self.val@ =~= ent_val(bd, bo, i as int));
            assert(self.key@.take(overlap as int) =~= blk_base_key(bd, bo).take(overlap as int));
            assert(self.block.wf());
            assert(self.perv_overlap as int <= blk_base_key(bd, bo).len());
            assert(self.key@.len() >= self.perv_overlap as int);
            assert(self.base_key@.len() == 0 || self.base_key@ == blk_base_key(bd, bo));
            assert(self.idx < self.block.n());
            assert(self.perv_overlap as nat == ent_overlap(bd, bo, self.idx as int));
        }
    }

    /// Whether the last operation left the iterator on an entry.
    pub fn valid(&self) -> (r: bool)
        ensures
            r == (self.err is None),
    {
        self.err.is_none()
    }

    /// The error of the last operation, if any.
    pub fn error(&self) -> (r: Option<&IteratorError>)
        ensures
            (r is Some) == (self.err is Some),
            r matches Some(e) ==> *e == self.err->Some_0,
    {
        self.err.as_ref()
    }

    /// Positions at the first entry at or after `key`, searching from
    /// the origin or from the current position; records end-of-
    /// iteration when no such entry exists.
    pub fn seek(&mut self, key: &Vec<u8>, whence: SeekPos)
        requires
            old(self).inv(),
            old(self).block.sorted(),
            key@.len() >= 8,
        ensures
            final(self).inv(),
            final(self).positioned(),
            final(self).block == old(self).block,
            ({
                let start = if whence is Origin {
                    0int
                } else {
                    old(self).idx as int
                };
                let n = old(self).block.n();
                &&& (final(self).err is None <==> exists|j: int|
                    start <= j < n && spec_compare_key(
                        #[trigger] old(self).block.key(j),
                        key@,
                    ) != Ordering::Less)
                &&& final(self).err is None ==> start <= final(self).idx < n && spec_compare_key(
                    old(self).block.key(final(self).idx as int),
                    key@,
                ) != Ordering::Less && forall|j: int|
                    start <= j < final(self).idx ==> spec_compare_key(
                        #[trigger] old(self).block.key(j),
                        key@,
                    ) == Ordering::Less
                &&& final(self).err is Some ==> (final(self).err matches Some(e) && e is EOF)
            }),
    {
        self.err = None;
        let start_index: usize = match whence {
            SeekPos::Origin => 0,
            SeekPos::Current => self.idx,
        };
        let n = self.block.entry_offsets.len();
        let ghost bd = self.block.data@;
        let ghost bo = self.block.entry_offsets@;
        let mut lo: usize = if start_index > n {
            n
        } else {
            start_index
        };
        let mut hi: usize = n;
        while lo < hi
            invariant
                start_index as int <= lo || (start_index > n && lo == n),
                lo <= hi <= n,
                n == old(self).block.n(),
                self.inv(),
                self.block == old(self).block,
                bd == self.block.data@,
                bo == self.block.entry_offsets@,
                old(self).block.sorted(),
                key@.len() >= 8,
                forall|j: int|
                    start_index <= j < lo ==> spec_compare_key(
                        #[trigger] ent_key(bd, bo, j),
                        key@,
                    ) == Ordering::Less,
                forall|j: int|
                    hi <= j < n ==> spec_compare_key(#[trigger] ent_key(bd, bo, j), key@)
                        != Ordering::Less,
            decreases hi - lo,
        {
            let m = lo + (hi - lo) / 2;
            self.set_idx(m);
            let c = compare_key(&self.key, key);
            match c {
                Ordering::Less => {
                    proof {
                        assert forall|j: int|
                            start_index <= j < m + 1 implies spec_compare_key(
                            #[trigger] ent_key(bd, bo, j),
                            key@,
                        ) == Ordering::Less by {
                            if j < m {
                                lemma_sorted_pair(bd, bo, j, m as int);
                                lemma_compare_key_trans(
                                    ent_key(bd, bo, j),
                                    ent_key(bd, bo, m as int),
                                    key@,
                                );
                            }
                        };
                    }
                    lo = m + 1;
                },
                _ => {
                    proof {
                        assert forall|j: int|
                            m <= j < n implies spec_compare_key(
                            #[trigger] ent_key(bd, bo, j),
                            key@,
                        ) != Ordering::Less by {
                            if j > m {
                                if spec_compare_key(ent_key(bd, bo, j), key@) == Ordering::Less {
                                    lemma_sorted_pair(bd, bo, m as int, j);
                                    lemma_compare_key_trans(
                                        ent_key(bd, bo, m as int),
                                        ent_key(bd, bo, j),
                                        key@,
                                    );
                                }
                            }
                        };
                    }
                    hi = m;
                },
            }
        }
        self.set_idx(lo);
    }

    /// Positions at the first entry.
    pub fn seek_to_first(&mut self)
        requires
            old(self).inv(),
        ensures
            final(self).inv(),
            final(self).positioned(),
            final(self).block == old(self).block,
            final(self).err is None,
            final(self).idx == 0,
    {
        self.set_idx(0);
    }

    /// Positions at the last entry.
    pub fn seek_to_last(&mut self)
        requires
            old(self).inv(),
        ensures
            final(self).inv(),
            final(self).positioned(),
            final(self).block == old(self).block,
            final(self).err is None,
            final(self).idx == old(self).block.n() - 1,
    {
        let n = self.block.entry_offsets.len();
        self.set_idx(n - 1);
    }

    /// Advances to the next entry; past the last it records
    /// end-of-iteration.
    pub fn next(&mut self)
        requires
            old(self).inv(),
            old(self).positioned(),
            old(self).err is None,
        ensures
            final(self).inv(),
            final(self).positioned(),
            final(self).block == old(self).block,
            final(self).idx == old(self).idx + 1,
            old(self).idx + 1 < old(self).block.n() ==> final(self).err is None,
            old(self).idx + 1 >= old(self).block.n() ==> (final(self).err matches Some(e) && e
                is EOF),
    {
        let i = self.idx;
        self.set_idx(i + 1);
    }

    /// Steps back to the previous entry; before the first it records
    /// end-of-iteration.
    pub fn prev(&mut self)
        requires
            old(self).inv(),
            old(self).positioned(),
            old(self).err is None,
        ensures
            final(self).inv(),
            final(self).positioned(),
            final(self).block == old(self).block,
            old(self).idx == 0 ==> (final(self).err matches Some(e) && e is EOF),
            old(self).idx > 0 ==> final(self).err is None && final(self).idx == old(self).idx - 1,
    {
        if self.idx == 0 {
            self.idx = usize::MAX;
            self.err = Some(IteratorError::EOF);
        } else {
            let i = self.idx;
            self.set_idx(i - 1);
        }
    }
}

} // verus!
