//! Immutable sorted tables and the table iterator.
//!
//! A table is a sequence of blocks whose keys are globally sorted. The
//! iterator composes a block selector with a block iterator: a seek
//! picks the block whose first key brackets the target and delegates
//! to the block iterator; traversal walks entries and hops blocks at
//! their edges. Reversal swaps the directions at the public surface.

use vstd::prelude::*;
use core::cmp::Ordering;
use crate::block::{
    blk_base_key, build_block, lemma_sorted_pair, Block, BlockIterator, IteratorError, SeekPos,
};
use crate::error::Error;
use crate::format::{
    compare_key, get_ts, lemma_compare_key_antisym, lemma_compare_key_eq, lemma_compare_key_refl,
    lemma_compare_key_trans, spec_compare_key, spec_key_ts,
};
use crate::value::{spec_value_enc, Value};

verus! {

/// Traverse in reverse order.
pub const ITERATOR_REVERSED: usize = 1 << 1;

/// Do not populate the block cache on reads.
pub const ITERATOR_NOCACHE: usize = 1 << 2;

/// What `Table::offsets` reports for one block: its first key and the
/// block's position and length in the table's data.
pub struct BlockOffset {
    /// The block's first key.
    pub key: Vec<u8>,
    /// Byte offset of the block within the table data.
    pub offset: u32,
    /// Length of the block data in bytes.
    pub len: u32,
}

/// An immutable sorted table: a run of well-formed, sorted blocks with
/// globally increasing keys. Handles are shared by value here: cloning
/// copies the blocks.
pub struct Table {
    /// The table's blocks, in key order.
    pub blocks: Vec<Block>,
    /// Total size the table accounts for, in bytes.
    pub table_size: u64,
}

/// A value capped at the largest 32-bit count.
pub open spec fn spec_min_u32(x: int) -> int {
    if x > 0xffff_ffff {
        0xffff_ffff
    } else {
        x
    }
}

/// Total bytes of the blocks before block `b`.
pub open spec fn blocks_size_before(t: &Table, b: int) -> int
    decreases b,
{
    if b <= 0 {
        0
    } else {
        blocks_size_before(t, b - 1) + t.blocks@[b - 1].data.len()
    }
}

/// Every value of the block parses as a value encoding.
pub open spec fn block_vals_ok(b: Block) -> bool {
    forall|j: int|
        0 <= j < b.n() ==> (#[trigger] b.val(j)).len() >= 2 && crate::codec::spec_dec_varint(
            b.val(j).skip(2),
        ) is Some
}

/// Whether `j` addresses an entry of block `b`.
pub open spec fn blk_entry_ok(b: Block, j: int) -> bool {
    0 <= j < b.n()
}

/// Whether `(b, j)` addresses an entry of the table.
pub open spec fn pos_ok(t: &Table, b: int, j: int) -> bool {
    0 <= b < t.blocks.len() && 0 <= j < t.blocks@[b].n()
}

impl Table {
    /// The key of entry `j` of block `b`.
    pub open spec fn key(&self, b: int, j: int) -> Seq<u8> {
        self.blocks@[b].key(j)
    }

    /// The encoded value bytes of entry `j` of block `b`.
    pub open spec fn val(&self, b: int, j: int) -> Seq<u8> {
        self.blocks@[b].val(j)
    }

    /// Number of blocks.
    pub open spec fn nblocks(&self) -> int {
        self.blocks.len() as int
    }

    /// Every block well-formed and sorted, keys globally increasing,
    /// every value parseable.
    pub open spec fn wf(&self) -> bool {
        &&& self.blocks.len() >= 1
        &&& forall|b: int|
            0 <= b < self.blocks.len() ==> (#[trigger] self.blocks@[b]).wf()
                && self.blocks@[b].sorted()
        &&& forall|b: int|
            0 <= b < self.blocks.len() - 1 ==> #[trigger] spec_compare_key(
                self.blocks@[b].key(self.blocks@[b].n() - 1),
                self.blocks@[b + 1].key(0),
            ) == Ordering::Less
        &&& forall|b: int| 0 <= b < self.blocks.len() ==> block_vals_ok(#[trigger] self.blocks@[b])
    }

    /// Number of blocks in the table.
    pub fn offsets_length(&self) -> (r: usize)
        ensures
            r == self.nblocks(),
    {
        self.blocks.len()
    }

    /// The first key, byte offset and length of block `i`; offset and
    /// length saturate at the 32-bit bound of the on-disk index format.
    pub fn offsets(&self, i: usize) -> (r: Option<BlockOffset>)
        requires
            self.wf(),
        ensures
            (r is Some) == (i < self.nblocks()),
            r matches Some(o) ==> o.key@ == self.key(i as int, 0) && o.offset as int
                == spec_min_u32(blocks_size_before(self, i as int)) && o.len as int
                == spec_min_u32(self.blocks@[i as int].data.len() as int),
    {
        if i >= self.blocks.len() {
            return None;
        }
        let mut off: u64 = 0;
        let mut b: usize = 0;
        while b < i
            invariant
                b <= i < self.blocks.len(),
                self.wf(),
                off as int == spec_min_u32(blocks_size_before(self, b as int)),
            decreases i - b,
        {
            let l = self.blocks[b].data.len() as u64;
            let s = if off > 0xffff_ffffu64 {
                off
            } else if l > 0xffff_ffffu64 {
                0xffff_ffffu64
            } else {
                off + l
            };
            off = if s > 0xffff_ffffu64 {
                0xffff_ffffu64
            } else {
                s
            };
            b = b + 1;
        }
        let blk = &self.blocks[i];
        let ghost bd = blk.data@;
        let ghost bo = blk.entry_offsets@;
        proof {
            assert(self.blocks@[i as int].wf());
            assert(crate::block::ent_end(bd, bo, 0) <= bd.len());
            assert(crate::block::ent_start(bo, 0) + 4 + crate::block::ent_diff_len(bd, bo, 0)
                <= crate::block::ent_end(bd, bo, 0));
        }
        let dl = crate::block::read_first_diff_len(blk);
        let key = crate::block::bytes_range(&blk.data, 4, 4 + dl as usize);
        proof {
            assert(key@ =~= crate::block::ent_diff(bd, bo, 0));
            assert(crate::block::ent_key(bd, bo, 0) =~= crate::block::ent_diff(bd, bo, 0));
        }
        let len = if blk.data.len() > 0xffff_ffffusize {
            0xffff_ffffu32
        } else {
            blk.data.len() as u32
        };
        Some(BlockOffset { key, offset: off as u32, len })
    }

    /// A shared handle to block `idx`; fails with `TableRead` when the
    /// index is out of range. The cache flag is accepted for interface
    /// parity; this table serves blocks from memory.
    pub fn block(&self, idx: usize, _use_cache: bool) -> (r: Result<Block, Error>)
        ensures
            idx < self.nblocks() ==> (r matches Ok(b) && b.data@ == self.blocks@[idx as int].data@
                && b.entry_offsets@ == self.blocks@[idx as int].entry_offsets@
                && b.entries_index_start == self.blocks@[idx as int].entries_index_start),
            idx >= self.nblocks() ==> r matches Err(Error::TableRead(_)),
    {
        if idx >= self.blocks.len() {
            return Err(Error::TableRead("block index out of range"));
        }
        Ok(self.blocks[idx].clone())
    }

    /// Total size the table accounts for, in bytes.
    pub fn size(&self) -> (r: u64)
        ensures
            r == self.table_size,
    {
        self.table_size
    }

    /// A fresh iterator over this table. The low bits of `opt` select
    /// reversal and cache behaviour.
    pub fn new_iterator(&self, opt: usize) -> (r: TableIterator)
        requires
            self.wf(),
        ensures
            r.inv(),
            r.table.wf(),
            r.table_view() == self.table_view(),
            r.opt == opt,
            r.err is None,
            r.table.nblocks() == self.nblocks(),
            forall|b: int, j: int| pos_ok(&r.table, b, j) <==> pos_ok(self, b, j),
            forall|b: int, j: int|
                #![trigger r.table.key(b, j)]
                pos_ok(self, b, j) ==> r.table.key(b, j) == self.key(b, j) && r.table.val(b, j)
                    == self.val(b, j),
    {
        let t = self.clone_table();
        TableIterator::new(t, opt)
    }

    /// The views of all blocks, as identity for handles.
    pub open spec fn table_view(&self) -> Seq<(Seq<u8>, Seq<u32>)> {
        Seq::new(self.blocks.len() as nat, |b: int| (self.blocks@[b].data@, self.blocks@[b].entry_offsets@))
    }

    /// A deep copy, standing in for a shared table handle.
    pub fn clone_table(&self) -> (r: Table)
        ensures
            r.table_view() == self.table_view(),
            r.table_size == self.table_size,
            r.nblocks() == self.nblocks(),
            self.wf() ==> r.wf(),
            forall|b: int, j: int| pos_ok(self, b, j) <==> pos_ok(&r, b, j),
            forall|b: int, j: int| pos_ok(self, b, j) ==> r.key(b, j) == self.key(b, j) && r.val(b, j) == self.val(b, j),
    {
        let mut blocks: Vec<Block> = Vec::new();
        let mut i: usize = 0;
        while i < self.blocks.len()
            invariant
                i <= self.blocks.len(),
                blocks.len() == i,
                forall|b: int|
                    0 <= b < i ==> (#[trigger] blocks@[b]).data@ == self.blocks@[b].data@
                        && blocks@[b].entry_offsets@ == self.blocks@[b].entry_offsets@
                        && blocks@[b].entries_index_start == self.blocks@[b].entries_index_start,
            decreases self.blocks.len() - i,
        {
            blocks.push(self.blocks[i].clone());
            i = i + 1;
        }
        let r = Table { blocks, table_size: self.table_size };
        proof {
            assert(r.table_view() =~= self.table_view());
            assert forall|b: int, j: int| pos_ok(self, b, j) implies r.key(b, j) == self.key(b, j)
                && r.val(b, j) == self.val(b, j) by {};
            if self.wf() {
                assert forall|b: int| 0 <= b < r.blocks.len() implies (#[trigger] r.blocks@[b]).wf()
                    && r.blocks@[b].sorted() by {
                    assert(self.blocks@[b].wf() && self.blocks@[b].sorted());
                };
                assert forall|b: int| 0 <= b < r.blocks.len() - 1 implies #[trigger] spec_compare_key(
                    r.blocks@[b].key(r.blocks@[b].n() - 1),
                    r.blocks@[b + 1].key(0),
                ) == Ordering::Less by {
                    assert(spec_compare_key(
                        self.blocks@[b].key(self.blocks@[b].n() - 1),
                        self.blocks@[b + 1].key(0),
                    ) == Ordering::Less);
                };
                assert forall|b: int| 0 <= b < r.blocks.len() implies block_vals_ok(
                    #[trigger] r.blocks@[b],
                ) by {
                    assert(block_vals_ok(self.blocks@[b]));
                    assert forall|j: int| 0 <= j < r.blocks@[b].n() implies (
                    #[trigger] r.blocks@[b].val(j)).len() >= 2 && crate::codec::spec_dec_varint(
                        r.blocks@[b].val(j).skip(2),
                    ) is Some by {
                        assert(r.blocks@[b].val(j) == self.blocks@[b].val(j));
                        assert(self.blocks@[b].val(j).len() >= 2 && crate::codec::spec_dec_varint(
                            self.blocks@[b].val(j).skip(2),
                        ) is Some);
                    };
                };
                assert(r.wf());
            }
        }
        r
    }
}

/// Every entry strictly precedes every later entry, across blocks.
pub proof fn lemma_table_order(t: &Table, b1: int, j1: int, b2: int, j2: int)
    requires
        t.wf(),
        pos_ok(t, b1, j1),
        pos_ok(t, b2, j2),
        b1 < b2 || (b1 == b2 && j1 < j2),
    ensures
        spec_compare_key(t.key(b1, j1), t.key(b2, j2)) == Ordering::Less,
    decreases b2 - b1,
{
    let bd1 = t.blocks@[b1].data@;
    let bo1 = t.blocks@[b1].entry_offsets@;
    if b1 == b2 {
        lemma_sorted_pair(bd1, bo1, j1, j2);
    } else {
        let last1 = t.blocks@[b1].n() - 1;
        if j1 < last1 {
            lemma_sorted_pair(bd1, bo1, j1, last1);
        }
        if b1 + 1 == b2 {
            // last key of b1 is below the first key of b2
            if j2 > 0 {
                lemma_sorted_pair(t.blocks@[b2].data@, t.blocks@[b2].entry_offsets@, 0, j2);
                lemma_compare_key_trans(t.key(b1, last1), t.key(b2, 0), t.key(b2, j2));
            }
            if j1 < last1 {
                lemma_compare_key_trans(t.key(b1, j1), t.key(b1, last1), t.key(b2, j2));
            }
        } else {
            lemma_table_order(t, b1 + 1, 0, b2, j2);
            if j1 < last1 {
                lemma_compare_key_trans(t.key(b1, j1), t.key(b1, last1), t.key(b1 + 1, 0));
            }
            lemma_compare_key_trans(t.key(b1, j1), t.key(b1 + 1, 0), t.key(b2, j2));
        }
    }
}

/// Builds a table from internal keys in strictly increasing order and
/// their values, `per_block` entries to a block: block `b` holds the
/// keys and values at flat positions `b * per_block + j`.
#[verifier::rlimit(100)]
pub fn build_table(keys: &Vec<Vec<u8>>, values: &Vec<Value>, per_block: usize) -> (r: Table)
    requires
        keys.len() == values.len(),
        1 <= keys.len() <= 0x1000,
        1 <= per_block <= 0x1000,
        forall|i: int| 0 <= i < keys.len() ==> 8 <= (#[trigger] keys@[i])@.len() <= 0xffff,
        forall|i: int| 0 <= i < values.len() ==> (#[trigger] values@[i]).value@.len() <= 0xffff,
        forall|i: int|
            0 <= i < keys.len() - 1 ==> #[trigger] spec_compare_key(keys@[i]@, keys@[i + 1]@)
                == Ordering::Less,
    ensures
        r.wf(),
        r.nblocks() * per_block >= keys.len(),
        (r.nblocks() - 1) * per_block < keys.len(),
        forall|b: int|
            0 <= b < r.nblocks() ==> (#[trigger] r.blocks@[b]).n() == if (b + 1) * per_block
                <= keys.len() {
                per_block as int
            } else {
                keys.len() - b * per_block
            },
        forall|b: int, j: int|
            0 <= b < r.nblocks() && #[trigger] blk_entry_ok(r.blocks@[b], j) ==> 0 <= b * per_block
                + j < keys.len() && r.key(b, j) == keys@[b * per_block + j]@ && r.val(b, j)
                == spec_value_enc(
                values@[b * per_block + j].meta,
                values@[b * per_block + j].user_meta,
                values@[b * per_block + j].expires_at,
                values@[b * per_block + j].value@,
            ),
{
    let mut blocks: Vec<Block> = Vec::new();
    let mut start: usize = 0;
    let mut total: u64 = 0;
    let ghost mut prev_last: Seq<u8> = Seq::empty();
    proof {
        assert(blocks.len() * per_block == 0) by (nonlinear_arith)
            requires
                blocks.len() == 0,
        ;
    }
    while start < keys.len()
        invariant
            keys.len() == values.len(),
            1 <= keys.len() <= 0x1000,
            1 <= per_block <= 0x1000,
            forall|i: int| 0 <= i < keys.len() ==> 8 <= (#[trigger] keys@[i])@.len() <= 0xffff,
            forall|i: int| 0 <= i < values.len() ==> (#[trigger] values@[i]).value@.len() <= 0xffff,
            forall|i: int|
                0 <= i < keys.len() - 1 ==> #[trigger] spec_compare_key(keys@[i]@, keys@[i + 1]@)
                    == Ordering::Less,
            start <= keys.len(),
            blocks.len() >= 1 || start == 0,
            start == blocks.len() * per_block || (start == keys.len() && (blocks.len() - 1)
                * per_block < start <= blocks.len() * per_block),
            total <= 0x2000_0000_0000u64,
            forall|b: int|
                0 <= b < blocks.len() ==> (#[trigger] blocks@[b]).n() == if (b + 1) * per_block
                    <= keys.len() {
                    per_block as int
                } else {
                    keys.len() - b * per_block
                },
            forall|b: int, j: int|
                0 <= b < blocks.len() && #[trigger] blk_entry_ok(blocks@[b], j) ==> 0 <= b
                    * per_block + j < keys.len() && blocks@[b].key(j) == keys@[b * per_block + j]@
                    && blocks@[b].val(j) == spec_value_enc(
                    values@[b * per_block + j].meta,
                    values@[b * per_block + j].user_meta,
                    values@[b * per_block + j].expires_at,
                    values@[b * per_block + j].value@,
                ),
            forall|b: int|
                0 <= b < blocks.len() ==> (#[trigger] blocks@[b]).wf() && blocks@[b].sorted(),
            forall|b: int| 0 <= b < blocks.len() ==> block_vals_ok(#[trigger] blocks@[b]),
            forall|b: int|
                0 <= b < blocks.len() - 1 ==> #[trigger] spec_compare_key(
                    blocks@[b].key(blocks@[b].n() - 1),
                    blocks@[b + 1].key(0),
                ) == Ordering::Less,
            blocks.len() >= 1 ==> start >= 1 && blocks@[blocks.len() - 1].key(
                blocks@[blocks.len() - 1].n() - 1,
            ) == prev_last && prev_last == keys@[start - 1]@,
        decreases keys.len() - start,
    {
        let end = if keys.len() - start > per_block {
            start + per_block
        } else {
            keys.len()
        };
        let mut ck: Vec<Vec<u8>> = Vec::new();
        let mut cv: Vec<Value> = Vec::new();
        let mut i: usize = start;
        while i < end
            invariant
                start <= i <= end <= keys.len(),
                end <= start + per_block,
                per_block <= 0x1000,
                keys.len() == values.len(),
                ck.len() == i - start,
                cv.len() == i - start,
                forall|k: int| 0 <= k < ck.len() ==> (#[trigger] ck@[k])@ == keys@[start + k]@,
                forall|k: int|
                    0 <= k < cv.len() ==> (#[trigger] cv@[k]).meta == values@[start + k].meta
                        && cv@[k].user_meta == values@[start + k].user_meta && cv@[k].expires_at
                        == values@[start + k].expires_at && cv@[k].value@ == values@[start
                        + k].value@,
            decreases end - i,
        {
            ck.push(crate::block::clone_bytes(&keys[i]));
            let v = &values[i];
            cv.push(
                Value {
                    meta: v.meta,
                    user_meta: v.user_meta,
                    expires_at: v.expires_at,
                    value: crate::block::clone_bytes(&v.value),
                    version: v.version,
                },
            );
            i = i + 1;
        }
        proof {
            assert forall|k: int| 0 <= k < ck.len() - 1 implies #[trigger] spec_compare_key(
                ck@[k]@,
                ck@[k + 1]@,
            ) == Ordering::Less by {
                assert(ck@[k]@ == keys@[start + k]@);
                assert(ck@[k + 1]@ == keys@[start + k + 1]@);
            };
        }
        let blk = build_block(&ck, &cv);
        let l = blk.data.len() as u64;
        total = if total > 0x1000_0000_0000u64 {
            total
        } else {
            total + l
        };
        let ghost pre = blocks@;
        blocks.push(blk);
        proof {
            let nb = blocks.len() as int;
            let fresh = blocks@[nb - 1];
            assert(fresh.key(0) == ck@[0]@);
            assert(ck@[0]@ == keys@[start as int]@);
            assert(fresh.key(fresh.n() - 1) == ck@[ck.len() - 1]@);
            assert(ck@[ck.len() - 1]@ == keys@[end - 1]@);
            assert(nb * per_block == (nb - 1) * per_block + per_block) by (nonlinear_arith);
            assert(start == (nb - 1) * per_block);
            assert forall|b: int| 0 <= b < nb implies (#[trigger] blocks@[b]).n() == if (b + 1)
                * per_block <= keys.len() {
                per_block as int
            } else {
                keys.len() - b * per_block
            } by {
                if b < nb - 1 {
                    assert(blocks@[b] == pre[b]);
                    assert(pre[b].n() == if (b + 1) * per_block <= keys.len() {
                        per_block as int
                    } else {
                        keys.len() - b * per_block
                    });
                } else {
                    assert(blocks@[b].n() == ck.len());
                    assert((b + 1) * per_block == start + per_block) by (nonlinear_arith)
                        requires
                            start == b * per_block,
                    ;
                }
            };
            assert forall|b: int, j: int|
                0 <= b < nb && #[trigger] blk_entry_ok(blocks@[b], j) implies 0 <= b * per_block
                + j < keys.len() && blocks@[b].key(j) == keys@[b * per_block + j]@
                && blocks@[b].val(j) == spec_value_enc(
                values@[b * per_block + j].meta,
                values@[b * per_block + j].user_meta,
                values@[b * per_block + j].expires_at,
                values@[b * per_block + j].value@,
            ) by {
                if b < nb - 1 {
                    assert(blocks@[b] == pre[b]);
                    assert(blk_entry_ok(pre[b], j));
                } else {
                    assert(b * per_block == start) by (nonlinear_arith)
                        requires
                            start == (nb - 1) * per_block,
                            b == nb - 1,
                    ;
                    assert(blocks@[b].key(j) == ck@[j]@);
                    assert(ck@[j]@ == keys@[start + j]@);
                    assert(blocks@[b].val(j) == spec_value_enc(
                        (cv@[j]).meta,
                        cv@[j].user_meta,
                        cv@[j].expires_at,
                        cv@[j].value@,
                    ));
                    assert(cv@[j].meta == values@[start + j].meta && cv@[j].user_meta == values@[
                        start + j].user_meta && cv@[j].expires_at == values@[start + j].expires_at
                        && cv@[j].value@ == values@[start + j].value@);
                }
            };
            if end == keys.len() && end < start + per_block {
                assert((nb - 1) * per_block < end <= nb * per_block);
            } else {
                assert(end == start + per_block);
                assert(end == nb * per_block);
            }
            assert forall|b: int| 0 <= b < nb implies (#[trigger] blocks@[b]).wf()
                && blocks@[b].sorted() by {
                if b < nb - 1 {
                    assert(blocks@[b] == pre[b]);
                    assert(pre[b].wf() && pre[b].sorted());
                }
            };
            assert forall|b: int| 0 <= b < nb implies block_vals_ok(#[trigger] blocks@[b]) by {
                if b < nb - 1 {
                    assert(blocks@[b] == pre[b]);
                    assert(block_vals_ok(pre[b]));
                } else {
                    assert forall|j: int| 0 <= j < blocks@[b].n() implies (
                    #[trigger] blocks@[b].val(j)).len() >= 2 && crate::codec::spec_dec_varint(
                        blocks@[b].val(j).skip(2),
                    ) is Some by {
                        assert(blocks@[b].val(j) == spec_value_enc(
                            (cv@[j]).meta,
                            cv@[j].user_meta,
                            cv@[j].expires_at,
                            cv@[j].value@,
                        ));
                        crate::value::lemma_value_enc_parse(
                            cv@[j].meta,
                            cv@[j].user_meta,
                            cv@[j].expires_at,
                            cv@[j].value@,
                        );
                    };
                }
            };
            assert forall|b: int| 0 <= b < nb - 1 implies #[trigger] spec_compare_key(
                blocks@[b].key(blocks@[b].n() - 1),
                blocks@[b + 1].key(0),
            ) == Ordering::Less by {
                if b < nb - 2 {
                    assert(blocks@[b] == pre[b]);
                    assert(blocks@[b + 1] == pre[b + 1]);
                    assert(spec_compare_key(pre[b].key(pre[b].n() - 1), pre[b + 1].key(0))
                        == Ordering::Less);
                } else {
                    assert(blocks@[b] == pre[b]);
                    assert(pre[b].key(pre[b].n() - 1) == prev_last);
                    assert(prev_last == keys@[start - 1]@);
                    assert(blocks@[b + 1].key(0) == keys@[start as int]@);
                    let ghost ii = start - 1;
                    assert(spec_compare_key(keys@[ii]@, keys@[ii + 1]@) == Ordering::Less);
                }
            };
            prev_last = keys@[end - 1]@;
        }
        start = end;
    }
    let ghost allb = blocks@;
    let t = Table { blocks, table_size: total };
    proof {
        let nb = t.blocks.len() as int;
        assert(t.blocks@ == allb);
        assert(start == keys.len());
        assert((nb - 1) * per_block < keys.len() && keys.len() <= nb * per_block) by {
            if start == nb * per_block {
                assert((nb - 1) * per_block < nb * per_block) by (nonlinear_arith)
                    requires
                        per_block >= 1,
                        nb >= 1,
                ;
            }
        };
        assert forall|b: int| 0 <= b < nb implies (#[trigger] t.blocks@[b]).n() == if (b + 1)
            * per_block <= keys.len() {
            per_block as int
        } else {
            keys.len() - b * per_block
        } by {
            assert(t.blocks@[b] == allb[b]);
            assert(allb[b].n() == if (b + 1) * per_block <= keys.len() {
                per_block as int
            } else {
                keys.len() - b * per_block
            });
        };
        assert forall|b: int, j: int|
            0 <= b < nb && #[trigger] blk_entry_ok(t.blocks@[b], j) implies 0 <= b * per_block + j
            < keys.len() && t.key(b, j) == keys@[b * per_block + j]@ && t.val(b, j)
            == spec_value_enc(
            values@[b * per_block + j].meta,
            values@[b * per_block + j].user_meta,
            values@[b * per_block + j].expires_at,
            values@[b * per_block + j].value@,
        ) by {
            assert(t.blocks@[b] == allb[b]);
            assert(blk_entry_ok(allb[b], j));
            assert(allb[b].key(j) == keys@[b * per_block + j]@);
            assert(allb[b].val(j) == spec_value_enc(
                values@[b * per_block + j].meta,
                values@[b * per_block + j].user_meta,
                values@[b * per_block + j].expires_at,
                values@[b * per_block + j].value@,
            ));
        };
    }
    t
}

/// A positioned iterator stands on an internal key: at least 8 bytes.
pub proof fn lemma_cur_key_len(it: &TableIterator)
    requires
        it.inv(),
        it.positioned(),
    ensures
        it.cur_key().len() >= 8,
{
    let t = &it.table;
    assert(t.blocks@[it.cur_b()].wf());
    assert(crate::block::ent_key(
        t.blocks@[it.cur_b()].data@,
        t.blocks@[it.cur_b()].entry_offsets@,
        it.cur_j(),
    ).len() >= 8);
}

/// Whether two block handles hold the same block.
pub open spec fn block_matches(a: &Block, b: &Block) -> bool {
    a.data@ == b.data@ && a.entry_offsets@ == b.entry_offsets@ && a.entries_index_start
        == b.entries_index_start
}

/// `(b1, j1)` addresses an earlier entry than `(b2, j2)`.
pub open spec fn pos_before(b1: int, j1: int, b2: int, j2: int) -> bool {
    b1 < b2 || (b1 == b2 && j1 < j2)
}

/// Whether two byte vectors hold the same bytes.
pub fn keys_equal(a: &Vec<u8>, b: &Vec<u8>) -> (r: bool)
    ensures
        r == (a@ == b@),
{
    if a.len() != b.len() {
        return false;
    }
    let mut i: usize = 0;
    while i < a.len()
        invariant
            i <= a.len() == b.len(),
            forall|j: int| 0 <= j < i ==> a@[j] == b@[j],
        decreases a.len() - i,
    {
        if a[i] != b[i] {
            return false;
        }
        i = i + 1;
    }
    proof {
        assert(a@ =~= b@);
    }
    true
}

/// An iterator over a whole table: a block position plus an iterator
/// inside that block. Reversal is applied at the public surface.
pub struct TableIterator {
    /// The table being traversed.
    pub table: Table,
    /// Index of the current block.
    pub bpos: usize,
    /// Iterator inside the current block.
    pub block_iter: BlockIterator,
    /// Error of the last operation.
    pub err: Option<IteratorError>,
    /// Option bits: reversal, cache use.
    pub opt: usize,
}

impl TableIterator {
    /// Structural invariant every operation preserves.
    pub open spec fn inv(&self) -> bool {
        &&& self.table.wf()
        &&& self.block_iter.inv()
    }

    /// The iterator stands on an entry of the table.
    pub open spec fn positioned(&self) -> bool {
        &&& self.err is None
        &&& self.bpos < self.table.nblocks()
        &&& self.block_iter.err is None
        &&& block_matches(&self.block_iter.block, &self.table.blocks@[self.bpos as int])
        &&& self.block_iter.positioned()
        &&& self.block_iter.idx < self.table.blocks@[self.bpos as int].n()
    }

    /// Current block index.
    pub open spec fn cur_b(&self) -> int {
        self.bpos as int
    }

    /// Current entry index within the block.
    pub open spec fn cur_j(&self) -> int {
        self.block_iter.idx as int
    }

    /// The current entry's key.
    pub open spec fn cur_key(&self) -> Seq<u8> {
        self.table.key(self.cur_b(), self.cur_j())
    }

    /// The current entry's encoded value bytes.
    pub open spec fn cur_val(&self) -> Seq<u8> {
        self.table.val(self.cur_b(), self.cur_j())
    }

    /// Whether the reversal bit is set.
    pub open spec fn spec_reversed(&self) -> bool {
        self.opt & ITERATOR_REVERSED != 0
    }

    /// The views of the table's blocks.
    pub open spec fn table_view(&self) -> Seq<(Seq<u8>, Seq<u32>)> {
        self.table.table_view()
    }

    /// A fresh iterator; position it with a seek or rewind first.
    pub fn new(table: Table, opt: usize) -> (r: Self)
        requires
            table.wf(),
        ensures
            r.inv(),
            r.table == table,
            r.opt == opt,
            r.err is None,
            r.bpos == 0,
    {
        let b0 = table.blocks[0].clone();
        proof {
            assert(table.blocks@[0].wf());
            assert(b0.wf());
        }
        let bi = BlockIterator::new(b0);
        TableIterator { table, bpos: 0, block_iter: bi, err: None, opt }
    }

    /// Resets the block position and clears the error; the iterator
    /// must be positioned again before reading.
    pub fn reset(&mut self)
        ensures
            final(self).table == old(self).table,
            final(self).opt == old(self).opt,
            final(self).bpos == 0,
            final(self).err is None,
            final(self).block_iter == old(self).block_iter,
    {
        self.bpos = 0;
        self.err = None;
    }

    /// Whether the last operation left the iterator on an entry.
    pub fn valid(&self) -> (r: bool)
        ensures
            r == (self.err is None),
    {
        self.err.is_none()
    }

    /// Whether reads may populate the block cache.
    pub fn use_cache(&self) -> (r: bool)
        ensures
            r == (self.opt & ITERATOR_NOCACHE == 0),
    {
        self.opt & ITERATOR_NOCACHE == 0
    }

    /// The error of the last operation, if any.
    pub fn error(&self) -> (r: Option<&IteratorError>)
        ensures
            (r is Some) == (self.err is Some),
            r matches Some(e) ==> *e == self.err->Some_0,
    {
        self.err.as_ref()
    }

    /// Loads block `block_idx` and seeks inside it from its origin.
    fn seek_helper(&mut self, block_idx: usize, key: &Vec<u8>)
        requires
            old(self).inv(),
            block_idx < old(self).table.nblocks(),
            key@.len() >= 8,
        ensures
            final(self).inv(),
            final(self).table == old(self).table,
            final(self).opt == old(self).opt,
            final(self).bpos == block_idx,
            ({
                let t = old(self).table;
                let n = t.blocks@[block_idx as int].n();
                &&& (final(self).err is None <==> exists|j: int|
                    0 <= j < n && spec_compare_key(#[trigger] t.key(block_idx as int, j), key@)
                        != Ordering::Less)
                &&& (final(self).err is None ==> final(self).positioned() && spec_compare_key(
                    t.key(block_idx as int, final(self).cur_j()),
                    key@,
                ) != Ordering::Less && forall|j: int|
                    0 <= j < final(self).cur_j() ==> spec_compare_key(
                        #[trigger] t.key(block_idx as int, j),
                        key@,
                    ) == Ordering::Less)
                &&& (final(self).err is Some ==> (final(self).err matches Some(e) && e is EOF))
            }),
    {
        self.bpos = block_idx;
        let blk = match self.table.block(block_idx, self.use_cache()) {
            Ok(b) => b,
            Err(_) => {
                proof {
                    assert(false);
                }
                return ;
            },
        };
        proof {
            assert(self.table.blocks@[block_idx as int].wf());
            assert(self.table.blocks@[block_idx as int].sorted());
            assert(blk.wf());
            assert(blk.sorted());
        }
        self.block_iter.set_block(blk);
        self.block_iter.seek(key, SeekPos::Origin);
        proof {
            assert forall|j: int| #[trigger] self.block_iter.block.key(j) == self.table.key(
                block_idx as int,
                j,
            ) by {
                assert(self.block_iter.block.data@ == self.table.blocks@[block_idx as int].data@);
                assert(self.block_iter.block.entry_offsets@ == self.table.blocks@[block_idx
                    as int].entry_offsets@);
            };
            assert forall|j: int| #[trigger] self.table.key(block_idx as int, j)
                == self.block_iter.block.key(j) by {
                assert(self.block_iter.block.data@ == self.table.blocks@[block_idx as int].data@);
                assert(self.block_iter.block.entry_offsets@ == self.table.blocks@[block_idx
                    as int].entry_offsets@);
            };
            assert(self.block_iter.block.n() == self.table.blocks@[block_idx as int].n());
        }
        if self.block_iter.valid() {
            self.err = None;
        } else {
            self.err = Some(IteratorError::EOF);
        }
    }

    /// Positions at the least entry at or after `key`, or records
    /// end-of-iteration when every entry is below it.
    #[verifier::rlimit(100)]
    fn seek_inner(&mut self, key: &Vec<u8>)
        requires
            old(self).inv(),
            key@.len() >= 8,
        ensures
            final(self).inv(),
            final(self).table == old(self).table,
            final(self).opt == old(self).opt,
            ({
                let t = old(self).table;
                &&& (final(self).err is None <==> exists|b: int, j: int|
                    pos_ok(&t, b, j) && spec_compare_key(#[trigger] t.key(b, j), key@)
                        != Ordering::Less)
                &&& (final(self).err is None ==> final(self).positioned() && spec_compare_key(
                    final(self).cur_key(),
                    key@,
                ) != Ordering::Less && forall|b: int, j: int|
                    pos_ok(&t, b, j) && pos_before(b, j, final(self).cur_b(), final(self).cur_j())
                        ==> spec_compare_key(#[trigger] t.key(b, j), key@) == Ordering::Less)
                &&& (final(self).err is Some ==> (final(self).err matches Some(e) && e is EOF))
            }),
    {
        self.err = None;
        self.bpos = 0;
        let n = self.table.offsets_length();
        let ghost t = *old(self);
        let mut lo: usize = 0;
        let mut hi: usize = n;
        while lo < hi
            invariant
                lo <= hi <= n,
                n == self.table.nblocks(),
                self.inv(),
                self.table == old(self).table,
                self.opt == old(self).opt,
                key@.len() >= 8,
                forall|b: int|
                    0 <= b < lo ==> spec_compare_key(#[trigger] self.table.key(b, 0), key@)
                        == Ordering::Less,
                forall|b: int|
                    hi <= b < n ==> spec_compare_key(#[trigger] self.table.key(b, 0), key@)
                        != Ordering::Less,
            decreases hi - lo,
        {
            let m = lo + (hi - lo) / 2;
            let off = match self.table.offsets(m) {
                Some(o) => o,
                None => {
                    proof {
                        assert(false);
                    }
                    return ;
                },
            };
            let c = compare_key(&off.key, key);
            match c {
                Ordering::Less => {
                    proof {
                        assert forall|b: int|
                            0 <= b < m + 1 implies spec_compare_key(
                            #[trigger] self.table.key(b, 0),
                            key@,
                        ) == Ordering::Less by {
                            if b < m {
                                lemma_table_order(&self.table, b, 0, m as int, 0);
                                lemma_compare_key_trans(
                                    self.table.key(b, 0),
                                    self.table.key(m as int, 0),
                                    key@,
                                );
                            }
                        };
                    }
                    lo = m + 1;
                },
                _ => {
                    proof {
                        assert forall|b: int|
                            m <= b < n implies spec_compare_key(
                            #[trigger] self.table.key(b, 0),
                            key@,
                        ) != Ordering::Less by {
                            if b > m {
                                if spec_compare_key(self.table.key(b, 0), key@) == Ordering::Less {
                                    lemma_table_order(&self.table, m as int, 0, b, 0);
                                    lemma_compare_key_trans(
                                        self.table.key(m as int, 0),
                                        self.table.key(b, 0),
                                        key@,
                                    );
                                }
                            }
                        };
                    }
                    hi = m;
                },
            }
        }
        let fidx = lo;
        if fidx == 0 {
            self.seek_helper(0, key);
            proof {
                if self.err is None {
                    assert forall|b: int, j: int|
                        pos_ok(&t.table, b, j) && pos_before(b, j, self.cur_b(), self.cur_j())
                            implies spec_compare_key(#[trigger] t.table.key(b, j), key@)
                        == Ordering::Less by {};
                }
            }
            return ;
        }
        self.seek_helper(fidx - 1, key);
        proof {
            // every entry in a block before `fidx - 1` is below the target
            assert forall|b: int, j: int|
                pos_ok(&t.table, b, j) && b < fidx - 1 implies spec_compare_key(
                #[trigger] t.table.key(b, j),
                key@,
            ) == Ordering::Less by {
                lemma_table_order(&t.table, b, j, fidx - 1, 0);
                lemma_compare_key_trans(t.table.key(b, j), t.table.key(fidx - 1, 0), key@);
            };
        }
        let mut was_eof = false;
        match &self.err {
            Some(e) => {
                if e.is_eof() {
                    was_eof = true;
                }
            },
            None => {},
        }
        if was_eof {
            if fidx == n {
                return ;
            }
            self.seek_helper(fidx, key);
            proof {
                assert(spec_compare_key(t.table.key(fidx as int, 0), key@) != Ordering::Less);
                assert(self.err is None);
                assert(self.cur_j() == 0);
                assert forall|b: int, j: int|
                    pos_ok(&t.table, b, j) && pos_before(b, j, self.cur_b(), self.cur_j())
                        implies spec_compare_key(#[trigger] t.table.key(b, j), key@)
                    == Ordering::Less by {};
            }
        }
    }

    /// Positions at the greatest entry at or before `key`, or records
    /// end-of-iteration when every entry is above it.
    pub fn seek_for_prev(&mut self, key: &Vec<u8>)
        requires
            old(self).inv(),
            key@.len() >= 8,
        ensures
            final(self).inv(),
            final(self).table == old(self).table,
            final(self).opt == old(self).opt,
            ({
                let t = old(self).table;
                &&& (final(self).err is None <==> exists|b: int, j: int|
                    pos_ok(&t, b, j) && spec_compare_key(#[trigger] t.key(b, j), key@)
                        != Ordering::Greater)
                &&& (final(self).err is None ==> final(self).positioned() && spec_compare_key(
                    final(self).cur_key(),
                    key@,
                ) != Ordering::Greater && forall|b: int, j: int|
                    pos_ok(&t, b, j) && pos_before(final(self).cur_b(), final(self).cur_j(), b, j)
                        ==> spec_compare_key(#[trigger] t.key(b, j), key@) == Ordering::Greater)
                &&& (final(self).err is Some ==> (final(self).err matches Some(e) && e is EOF))
            }),
    {
        let ghost t = old(self).table;
        self.seek_inner(key);
        if self.valid() {
            let ghost cb = self.cur_b();
            let ghost cj = self.cur_j();
            let eq = keys_equal(&self.block_iter.key, key);
            proof {
                assert(self.block_iter.key@ == self.cur_key());
            }
            if eq {
                proof {
                    lemma_compare_key_refl(key@);
                    assert forall|b: int, j: int|
                        pos_ok(&t, b, j) && pos_before(cb, cj, b, j) implies spec_compare_key(
                        #[trigger] t.key(b, j),
                        key@,
                    ) == Ordering::Greater by {
                        lemma_table_order(&t, cb, cj, b, j);
                        lemma_compare_key_antisym(t.key(cb, cj), t.key(b, j));
                        lemma_compare_key_trans(key@, t.key(cb, cj), t.key(b, j));
                        lemma_compare_key_antisym(key@, t.key(b, j));
                    };
                }
            } else {
                proof {
                    if spec_compare_key(self.cur_key(), key@) == Ordering::Equal {
                        lemma_compare_key_eq(self.cur_key(), key@);
                    }
                    assert(spec_compare_key(t.key(cb, cj), key@) == Ordering::Greater);
                }
                self.prev_inner();
                proof {
                    lemma_compare_key_antisym(t.key(cb, cj), key@);
                    if self.err is None {
                        let nb = self.cur_b();
                        let nj = self.cur_j();
                        assert(pos_before(nb, nj, cb, cj));
                        // nothing lies strictly between (nb, nj) and (cb, cj)
                        assert(spec_compare_key(t.key(nb, nj), key@) != Ordering::Greater) by {
                            if spec_compare_key(t.key(nb, nj), key@) == Ordering::Greater {
                                assert(pos_before(nb, nj, cb, cj));
                                assert(false);
                            }
                        };
                        assert forall|b: int, j: int|
                            pos_ok(&t, b, j) && pos_before(nb, nj, b, j) implies spec_compare_key(
                            #[trigger] t.key(b, j),
                            key@,
                        ) == Ordering::Greater by {
                            if pos_before(b, j, cb, cj) {
                                assert(false);
                            } else if b == cb && j == cj {
                            } else {
                                lemma_table_order(&t, cb, cj, b, j);
                                lemma_compare_key_antisym(t.key(cb, cj), t.key(b, j));
                                lemma_compare_key_antisym(t.key(cb, cj), key@);
                                lemma_compare_key_trans(key@, t.key(cb, cj), t.key(b, j));
                                lemma_compare_key_antisym(key@, t.key(b, j));
                            }
                        };
                    } else {
                        assert(cb == 0 && cj == 0);
                        assert forall|b: int, j: int|
                            pos_ok(&t, b, j) implies spec_compare_key(#[trigger] t.key(b, j), key@)
                            == Ordering::Greater by {
                            if b == 0 && j == 0 {
                            } else {
                                lemma_table_order(&t, 0, 0, b, j);
                                lemma_compare_key_antisym(t.key(0, 0), t.key(b, j));
                                lemma_compare_key_antisym(t.key(0, 0), key@);
                                lemma_compare_key_trans(key@, t.key(0, 0), t.key(b, j));
                                lemma_compare_key_antisym(key@, t.key(b, j));
                            }
                        };
                    }
                }
            }
        } else {
            proof {
                assert(forall|b: int, j: int|
                    pos_ok(&t, b, j) ==> spec_compare_key(#[trigger] t.key(b, j), key@)
                        == Ordering::Less);
            }
            self.seek_to_last();
        }
    }

    /// Positions at the first entry of the table.
    pub fn seek_to_first(&mut self)
        requires
            old(self).inv(),
        ensures
            final(self).inv(),
            final(self).table == old(self).table,
            final(self).opt == old(self).opt,
            final(self).positioned(),
            final(self).cur_b() == 0,
            final(self).cur_j() == 0,
    {
        self.bpos = 0;
        let blk = match self.table.block(0, self.use_cache()) {
            Ok(b) => b,
            Err(_) => {
                proof {
                    assert(false);
                }
                return ;
            },
        };
        proof {
            assert(self.table.blocks@[0].wf());
        }
        self.block_iter.set_block(blk);
        self.block_iter.seek_to_first();
        self.err = None;
    }

    /// Positions at the last entry of the table.
    pub fn seek_to_last(&mut self)
        requires
            old(self).inv(),
        ensures
            final(self).inv(),
            final(self).table == old(self).table,
            final(self).opt == old(self).opt,
            final(self).positioned(),
            final(self).cur_b() == old(self).table.nblocks() - 1,
            final(self).cur_j() == old(self).table.blocks@[old(self).table.nblocks() - 1].n() - 1,
    {
        let n = self.table.offsets_length();
        self.bpos = n - 1;
        let blk = match self.table.block(n - 1, self.use_cache()) {
            Ok(b) => b,
            Err(_) => {
                proof {
                    assert(false);
                }
                return ;
            },
        };
        proof {
            assert(self.table.blocks@[n - 1].wf());
        }
        self.block_iter.set_block(blk);
        self.block_iter.seek_to_last();
        self.err = None;
    }

    /// Advances to the successor entry, hopping to the next block at a
    /// block edge; past the last entry it records end-of-iteration.
    fn next_inner(&mut self)
        requires
            old(self).inv(),
            old(self).positioned(),
        ensures
            final(self).inv(),
            final(self).table == old(self).table,
            final(self).opt == old(self).opt,
            ({
                let t = old(self).table;
                let b = old(self).cur_b();
                let j = old(self).cur_j();
                if j + 1 < t.blocks@[b].n() {
                    final(self).positioned() && final(self).cur_b() == b && final(self).cur_j() == j
                        + 1
                } else if b + 1 < t.nblocks() {
                    final(self).positioned() && final(self).cur_b() == b + 1 && final(self).cur_j()
                        == 0
                } else {
                    final(self).err matches Some(e) && e is EOF
                }
            }),
    {
        self.err = None;
        self.block_iter.next();
        if !self.block_iter.valid() {
            if self.bpos + 1 < self.table.offsets_length() {
                self.bpos = self.bpos + 1;
                let blk = match self.table.block(self.bpos, self.use_cache()) {
                    Ok(b) => b,
                    Err(_) => {
                        proof {
                            assert(false);
                        }
                        return ;
                    },
                };
                proof {
                    assert(self.table.blocks@[self.bpos as int].wf());
                }
                self.block_iter.set_block(blk);
                self.block_iter.seek_to_first();
            } else {
                self.err = Some(IteratorError::EOF);
            }
        }
    }

    /// Steps back to the predecessor entry, hopping to the previous
    /// block at a block edge; before the first entry it records
    /// end-of-iteration.
    fn prev_inner(&mut self)
        requires
            old(self).inv(),
            old(self).positioned(),
        ensures
            final(self).inv(),
            final(self).table == old(self).table,
            final(self).opt == old(self).opt,
            ({
                let t = old(self).table;
                let b = old(self).cur_b();
                let j = old(self).cur_j();
                if j > 0 {
                    final(self).positioned() && final(self).cur_b() == b && final(self).cur_j() == j
                        - 1
                } else if b > 0 {
                    final(self).positioned() && final(self).cur_b() == b - 1 && final(self).cur_j()
                        == t.blocks@[b - 1].n() - 1
                } else {
                    final(self).err matches Some(e) && e is EOF
                }
            }),
    {
        self.err = None;
        self.block_iter.prev();
        if !self.block_iter.valid() {
            if self.bpos > 0 {
                self.bpos = self.bpos - 1;
                let blk = match self.table.block(self.bpos, self.use_cache()) {
                    Ok(b) => b,
                    Err(_) => {
                        proof {
                            assert(false);
                        }
                        return ;
                    },
                };
                proof {
                    assert(self.table.blocks@[self.bpos as int].wf());
                }
                self.block_iter.set_block(blk);
                self.block_iter.seek_to_last();
            } else {
                self.err = Some(IteratorError::EOF);
            }
        }
    }

    /// The current entry's key.
    pub fn key(&self) -> (r: &Vec<u8>)
        requires
            self.inv(),
            self.positioned(),
        ensures
            r@ == self.cur_key(),
    {
        &self.block_iter.key
    }

    /// The current entry's value, decoded, with the version taken from
    /// the key's suffix.
    pub fn value(&self) -> (r: Value)
        requires
            self.inv(),
            self.positioned(),
        ensures
            ({
                let s = self.cur_val();
                let d = crate::codec::spec_dec_varint(s.skip(2));
                &&& r.meta == s[0]
                &&& r.user_meta == s[1]
                &&& r.expires_at == d->Some_0.0
                &&& r.value@ == s.skip(2 + d->Some_0.1 as int)
                &&& r.version == spec_key_ts(self.cur_key())
            }),
    {
        let mut v = Value::empty();
        proof {
            assert(self.block_iter.val@ == self.cur_val());
            assert(self.cur_val().len() >= 2 && crate::codec::spec_dec_varint(
                self.cur_val().skip(2),
            ) is Some);
        }
        v.decode(&self.block_iter.val);
        v.version = get_ts(&self.block_iter.key);
        v
    }

    /// Advances one entry in traversal order.
    pub fn next(&mut self)
        requires
            old(self).inv(),
            old(self).positioned(),
        ensures
            final(self).inv(),
            final(self).table == old(self).table,
            final(self).opt == old(self).opt,
            final(self).err is None ==> final(self).positioned(),
            !old(self).spec_reversed() ==> (final(self).err is None <==> !(old(self).cur_j() + 1
                >= old(self).table.blocks@[old(self).cur_b()].n() && old(self).cur_b() + 1 >= old(
                self,
            ).table.nblocks())),
            !old(self).spec_reversed() && final(self).err is None ==> pos_before(
                old(self).cur_b(),
                old(self).cur_j(),
                final(self).cur_b(),
                final(self).cur_j(),
            ) && (forall|b: int, j: int|
                pos_ok(&old(self).table, b, j) && pos_before(old(self).cur_b(), old(self).cur_j(), b, j)
                    && pos_before(b, j, final(self).cur_b(), final(self).cur_j()) ==> false),
            old(self).spec_reversed() && final(self).err is None ==> pos_before(
                final(self).cur_b(),
                final(self).cur_j(),
                old(self).cur_b(),
                old(self).cur_j(),
            ) && (forall|b: int, j: int|
                pos_ok(&old(self).table, b, j) && pos_before(b, j, old(self).cur_b(), old(self).cur_j())
                    && pos_before(final(self).cur_b(), final(self).cur_j(), b, j) ==> false),
            old(self).spec_reversed() ==> (final(self).err is None <==> !(old(self).cur_j() == 0
                && old(self).cur_b() == 0)),
    {
        if self.opt & ITERATOR_REVERSED == 0 {
            self.next_inner();
        } else {
            self.prev_inner();
        }
    }

    /// Steps one entry against traversal order: to the predecessor
    /// entry, or, reversed, to the successor.
    pub fn prev(&mut self)
        requires
            old(self).inv(),
            old(self).positioned(),
        ensures
            final(self).inv(),
            final(self).table == old(self).table,
            final(self).opt == old(self).opt,
            final(self).err is None ==> final(self).positioned(),
            !old(self).spec_reversed() ==> (final(self).err is None <==> !(old(self).cur_j() == 0
                && old(self).cur_b() == 0)),
            !old(self).spec_reversed() && final(self).err is None ==> pos_before(
                final(self).cur_b(),
                final(self).cur_j(),
                old(self).cur_b(),
                old(self).cur_j(),
            ) && (forall|b: int, j: int|
                pos_ok(&old(self).table, b, j) && pos_before(b, j, old(self).cur_b(), old(self).cur_j())
                    && pos_before(final(self).cur_b(), final(self).cur_j(), b, j) ==> false),
            old(self).spec_reversed() ==> (final(self).err is None <==> !(old(self).cur_j() + 1
                >= old(self).table.blocks@[old(self).cur_b()].n() && old(self).cur_b() + 1 >= old(
                self,
            ).table.nblocks())),
            old(self).spec_reversed() && final(self).err is None ==> pos_before(
                old(self).cur_b(),
                old(self).cur_j(),
                final(self).cur_b(),
                final(self).cur_j(),
            ) && (forall|b: int, j: int|
                pos_ok(&old(self).table, b, j) && pos_before(old(self).cur_b(), old(self).cur_j(), b, j)
                    && pos_before(b, j, final(self).cur_b(), final(self).cur_j()) ==> false),
    {
        if self.opt & ITERATOR_REVERSED == 0 {
            self.prev_inner();
        } else {
            self.next_inner();
        }
    }

    /// Positions at the first entry in traversal order.
    pub fn rewind(&mut self)
        requires
            old(self).inv(),
        ensures
            final(self).inv(),
            final(self).table == old(self).table,
            final(self).opt == old(self).opt,
            final(self).positioned(),
            !old(self).spec_reversed() ==> final(self).cur_b() == 0 && final(self).cur_j() == 0,
            old(self).spec_reversed() ==> final(self).cur_b() == old(self).table.nblocks() - 1
                && final(self).cur_j() == old(self).table.blocks@[old(self).table.nblocks()
                - 1].n() - 1,
    {
        if self.opt & ITERATOR_REVERSED == 0 {
            self.seek_to_first();
        } else {
            self.seek_to_last();
        }
    }

    /// Seeks in traversal order: to the least entry at or after `key`,
    /// or, reversed, to the greatest entry at or before it.
    pub fn seek(&mut self, key: &Vec<u8>)
        requires
            old(self).inv(),
            key@.len() >= 8,
        ensures
            final(self).inv(),
            final(self).table == old(self).table,
            final(self).opt == old(self).opt,
            ({
                let t = old(self).table;
                &&& (final(self).err is Some ==> (final(self).err matches Some(e) && e is EOF))
                &&& !old(self).spec_reversed() ==> {
                    &&& (final(self).err is None <==> exists|b: int, j: int|
                        pos_ok(&t, b, j) && spec_compare_key(#[trigger] t.key(b, j), key@)
                            != Ordering::Less)
                    &&& (final(self).err is None ==> final(self).positioned() && spec_compare_key(
                        final(self).cur_key(),
                        key@,
                    ) != Ordering::Less && forall|b: int, j: int|
                        pos_ok(&t, b, j) && pos_before(
                            b,
                            j,
                            final(self).cur_b(),
                            final(self).cur_j(),
                        ) ==> spec_compare_key(#[trigger] t.key(b, j), key@) == Ordering::Less)
                }
                &&& old(self).spec_reversed() ==> {
                    &&& (final(self).err is None <==> exists|b: int, j: int|
                        pos_ok(&t, b, j) && spec_compare_key(#[trigger] t.key(b, j), key@)
                            != Ordering::Greater)
                    &&& (final(self).err is None ==> final(self).positioned() && spec_compare_key(
                        final(self).cur_key(),
                        key@,
                    ) != Ordering::Greater && forall|b: int, j: int|
                        pos_ok(&t, b, j) && pos_before(
                            final(self).cur_b(),
                            final(self).cur_j(),
                            b,
                            j,
                        ) ==> spec_compare_key(#[trigger] t.key(b, j), key@) == Ordering::Greater)
                }
            }),
    {
        if self.opt & ITERATOR_REVERSED == 0 {
            self.seek_inner(key);
        } else {
            self.seek_for_prev(key);
        }
    }
}

} // verus!
