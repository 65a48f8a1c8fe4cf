//! Level handlers and the levels controller.
//!
//! A handler owns one level's tables and serves point lookups within
//! the level through a merge over its tables. The controller walks the
//! levels in order, skips tombstones, honours versioned visibility,
//! admits L0 tables up to the stall bound, and assigns file ids.

use vstd::prelude::*;
use core::cmp::Ordering;
use crate::error::Error;
use crate::format::{get_ts, same_key, spec_compare_key, spec_key_ts, spec_same_key};
use crate::merge::MergeIterator;
use crate::table::{pos_before, pos_ok, Table, TableIterator};
use crate::value::Value;
use crate::AgateOptions;

verus! {

/// Whether `(ti, b, j)` addresses an entry of one of `tables`.
pub open spec fn entry_ok(tables: Seq<Table>, ti: int, b: int, j: int) -> bool {
    0 <= ti < tables.len() && pos_ok(&tables[ti], b, j)
}

/// The entry at `(ti, b, j)` is the least entry at or past `key`
/// across all tables, shares its user key with `key`, and no earlier
/// table holds that same least key: every qualifying entry of a table
/// with a smaller index lies strictly above it, so on equal-key ties
/// the earliest table wins.
pub open spec fn found_at(tables: Seq<Table>, key: Seq<u8>, ti: int, b: int, j: int) -> bool {
    &&& entry_ok(tables, ti, b, j)
    &&& spec_compare_key(tables[ti].key(b, j), key) != Ordering::Less
    &&& spec_same_key(key, tables[ti].key(b, j))
    &&& forall|t2: int, b2: int, j2: int|
        entry_ok(tables, t2, b2, j2) && spec_compare_key(
            #[trigger] tables[t2].key(b2, j2),
            key,
        ) != Ordering::Less ==> spec_compare_key(tables[ti].key(b, j), tables[t2].key(b2, j2))
            != Ordering::Greater
    &&& forall|t2: int, b2: int, j2: int|
        0 <= t2 < ti && entry_ok(tables, t2, b2, j2) && spec_compare_key(
            #[trigger] tables[t2].key(b2, j2),
            key,
        ) != Ordering::Less ==> spec_compare_key(tables[ti].key(b, j), tables[t2].key(b2, j2))
            == Ordering::Less
}

/// The raw value bytes decode to a tombstone: empty payload, zero meta.
pub open spec fn spec_is_tombstone(s: Seq<u8>) -> bool {
    &&& s[0] == 0
    &&& ({
        let d = crate::codec::spec_dec_varint(s.skip(2));
        s.len() - 2 - d->Some_0.1 == 0
    })
}

/// The merge children mirror `tables` entry for entry.
pub open spec fn tables_match(iter: &MergeIterator, tables: Seq<Table>) -> bool {
    &&& iter.n() == tables.len()
    &&& forall|k: int, b: int, j: int|
        0 <= k < tables.len() ==> (pos_ok(&(#[trigger] iter.iters@[k]).table, b, j)
            <==> #[trigger] pos_ok(&tables[k], b, j))
    &&& forall|k: int, b: int, j: int|
        0 <= k < tables.len() && (#[trigger] pos_ok(&tables[k], b, j)) ==> (
        #[trigger] iter.iters@[k]).table.key(b, j) == tables[k].key(b, j)
            && iter.iters@[k].table.val(b, j) == tables[k].val(b, j)
}

/// When the merged seek ends exhausted, no table holds an entry at or
/// past the key, so nothing is found.
#[verifier::rlimit(100)]
proof fn lemma_merge_eof_no_found(iter: &MergeIterator, tables: Seq<Table>, key: Seq<u8>)
    requires
        iter.inv(),
        iter.ready(),
        iter.picked(),
        !iter.reversed,
        (iter.current as int) >= iter.n(),
        tables_match(iter, tables),
        crate::merge::children_sought_fwd(iter, key),
    ensures
        forall|ti: int, b: int, j: int| !found_at(tables, key, ti, b, j),
{
    assert forall|ti: int, b: int, j: int| !found_at(tables, key, ti, b, j) by {
        if entry_ok(tables, ti, b, j) && spec_compare_key(tables[ti].key(b, j), key)
            != Ordering::Less {
            assert(pos_ok(&iter.iters@[ti].table, b, j));
            assert(iter.iters@[ti].table.key(b, j) == tables[ti].key(b, j));
            assert(iter.iters@[ti].err is None);
            assert(false);
        }
    };
}

/// The winner's key is at or below one given entry at or past the key.
#[verifier::rlimit(100)]
proof fn lemma_winner_le_entry(
    iter: &MergeIterator,
    key: Seq<u8>,
    t2: int,
    b2: int,
    j2: int,
    ek: Seq<u8>,
)
    requires
        iter.inv(),
        iter.ready(),
        iter.picked(),
        (iter.current as int) < iter.n(),
        !iter.reversed,
        key.len() >= 8,
        0 <= t2 < iter.n(),
        iter.iters@[t2].err is None,
        pos_ok(&iter.iters@[t2].table, b2, j2),
        iter.iters@[t2].table.key(b2, j2) == ek,
        spec_compare_key(ek, key) != Ordering::Less,
        forall|b: int, j: int|
            pos_ok(&iter.iters@[t2].table, b, j) && pos_before(
                b,
                j,
                iter.iters@[t2].cur_b(),
                iter.iters@[t2].cur_j(),
            ) ==> spec_compare_key(#[trigger] iter.iters@[t2].table.key(b, j), key)
                == Ordering::Less,
    ensures
        spec_compare_key(iter.child_key(iter.current as int), ek) != Ordering::Greater,
{
    let c = iter.current as int;
    let t = iter.iters@[t2].table;
    let cb = iter.iters@[t2].cur_b();
    let cj = iter.iters@[t2].cur_j();
    assert(!pos_before(b2, j2, cb, cj));
    if b2 == cb && j2 == cj {
        assert(iter.child_key(t2) == t.key(b2, j2));
        crate::format::lemma_compare_key_refl(iter.child_key(t2));
    } else {
        assert(pos_before(cb, cj, b2, j2));
        crate::table::lemma_table_order(&t, cb, cj, b2, j2);
    }
    assert(crate::merge::mcmp(iter.reversed, iter.child_key(c), iter.child_key(t2))
        != Ordering::Greater);
    crate::table::lemma_cur_key_len(&iter.iters@[c]);
    crate::table::lemma_cur_key_len(&iter.iters@[t2]);
    assert(t.blocks@[b2].wf());
    assert(crate::block::ent_key(t.blocks@[b2].data@, t.blocks@[b2].entry_offsets@, j2).len()
        >= 8);
    crate::format::lemma_compare_key_trans(iter.child_key(c), iter.child_key(t2), t.key(b2, j2));
}

/// The winner's key is strictly below every qualifying entry of an
/// earlier table: the merge left each earlier child strictly above
/// the winner, so ties go to the earliest table.
#[verifier::rlimit(100)]
proof fn lemma_winner_lt_earlier(
    iter: &MergeIterator,
    key: Seq<u8>,
    t2: int,
    b2: int,
    j2: int,
    ek: Seq<u8>,
)
    requires
        iter.inv(),
        iter.ready(),
        iter.picked(),
        (iter.current as int) < iter.n(),
        !iter.reversed,
        key.len() >= 8,
        0 <= t2 < iter.current as int,
        iter.iters@[t2].err is None,
        pos_ok(&iter.iters@[t2].table, b2, j2),
        iter.iters@[t2].table.key(b2, j2) == ek,
        spec_compare_key(ek, key) != Ordering::Less,
        forall|b: int, j: int|
            pos_ok(&iter.iters@[t2].table, b, j) && pos_before(
                b,
                j,
                iter.iters@[t2].cur_b(),
                iter.iters@[t2].cur_j(),
            ) ==> spec_compare_key(#[trigger] iter.iters@[t2].table.key(b, j), key)
                == Ordering::Less,
    ensures
        spec_compare_key(iter.child_key(iter.current as int), ek) == Ordering::Less,
{
    let c = iter.current as int;
    let t = iter.iters@[t2].table;
    let cb = iter.iters@[t2].cur_b();
    let cj = iter.iters@[t2].cur_j();
    assert(!pos_before(b2, j2, cb, cj));
    if b2 == cb && j2 == cj {
        assert(iter.child_key(t2) == t.key(b2, j2));
        crate::format::lemma_compare_key_refl(iter.child_key(t2));
    } else {
        assert(pos_before(cb, cj, b2, j2));
        crate::table::lemma_table_order(&t, cb, cj, b2, j2);
    }
    // earlier children are strictly above the winner
    assert(crate::merge::mcmp(iter.reversed, iter.child_key(c), iter.child_key(t2))
        == Ordering::Less);
    crate::table::lemma_cur_key_len(&iter.iters@[c]);
    crate::table::lemma_cur_key_len(&iter.iters@[t2]);
    assert(t.blocks@[b2].wf());
    assert(crate::block::ent_key(t.blocks@[b2].data@, t.blocks@[b2].entry_offsets@, j2).len()
        >= 8);
    crate::format::lemma_compare_key_trans(iter.child_key(c), iter.child_key(t2), t.key(b2, j2));
}

/// After a successful merged seek, the winner's entry is the least
/// entry at or past the key across the level's tables.
#[verifier::rlimit(100)]
proof fn lemma_winner_found(iter: &MergeIterator, tables: Seq<Table>, key: Seq<u8>)
    requires
        iter.inv(),
        iter.ready(),
        iter.picked(),
        (iter.current as int) < iter.n(),
        !iter.reversed,
        key.len() >= 8,
        tables_match(iter, tables),
        crate::merge::children_sought_fwd(iter, key),
    ensures
        ({
            let c = iter.current as int;
            let wb = iter.iters@[c].cur_b();
            let wj = iter.iters@[c].cur_j();
            &&& entry_ok(tables, c, wb, wj)
            &&& tables[c].key(wb, wj) == iter.child_key(c)
            &&& tables[c].val(wb, wj) == iter.iters@[c].cur_val()
            &&& spec_compare_key(tables[c].key(wb, wj), key) != Ordering::Less
            &&& forall|t2: int, b2: int, j2: int|
                entry_ok(tables, t2, b2, j2) && spec_compare_key(
                    #[trigger] tables[t2].key(b2, j2),
                    key,
                ) != Ordering::Less ==> spec_compare_key(
                    tables[c].key(wb, wj),
                    tables[t2].key(b2, j2),
                ) != Ordering::Greater
            &&& forall|t2: int, b2: int, j2: int|
                0 <= t2 < c && entry_ok(tables, t2, b2, j2) && spec_compare_key(
                    #[trigger] tables[t2].key(b2, j2),
                    key,
                ) != Ordering::Less ==> spec_compare_key(
                    tables[c].key(wb, wj),
                    tables[t2].key(b2, j2),
                ) == Ordering::Less
        }),
{
    let c = iter.current as int;
    let wb = iter.iters@[c].cur_b();
    let wj = iter.iters@[c].cur_j();
    assert(iter.iters@[c].positioned());
    assert(pos_ok(&iter.iters@[c].table, wb, wj));
    assert(entry_ok(tables, c, wb, wj));
    assert(tables[c].key(wb, wj) == iter.iters@[c].table.key(wb, wj));
    assert forall|t2: int, b2: int, j2: int|
        entry_ok(tables, t2, b2, j2) && spec_compare_key(
            #[trigger] tables[t2].key(b2, j2),
            key,
        ) != Ordering::Less implies spec_compare_key(
        tables[c].key(wb, wj),
        tables[t2].key(b2, j2),
    ) != Ordering::Greater by {
        let t = iter.iters@[t2].table;
        assert(pos_ok(&t, b2, j2));
        assert(t.key(b2, j2) == tables[t2].key(b2, j2));
        assert(iter.iters@[t2].err is None);
        lemma_winner_le_entry(iter, key, t2, b2, j2, tables[t2].key(b2, j2));
    };
    assert forall|t2: int, b2: int, j2: int|
        0 <= t2 < c && entry_ok(tables, t2, b2, j2) && spec_compare_key(
            #[trigger] tables[t2].key(b2, j2),
            key,
        ) != Ordering::Less implies spec_compare_key(
        tables[c].key(wb, wj),
        tables[t2].key(b2, j2),
    ) == Ordering::Less by {
        let t = iter.iters@[t2].table;
        assert(pos_ok(&t, b2, j2));
        assert(t.key(b2, j2) == tables[t2].key(b2, j2));
        assert(iter.iters@[t2].err is None);
        lemma_winner_lt_earlier(iter, key, t2, b2, j2, tables[t2].key(b2, j2));
    };
}

/// When the least entry at or past the key does not share its user
/// key, nothing is found.
#[verifier::rlimit(100)]
proof fn lemma_wrong_user_no_found(iter: &MergeIterator, tables: Seq<Table>, key: Seq<u8>)
    requires
        iter.inv(),
        iter.ready(),
        iter.picked(),
        (iter.current as int) < iter.n(),
        !iter.reversed,
        key.len() >= 8,
        tables_match(iter, tables),
        crate::merge::children_sought_fwd(iter, key),
        !spec_same_key(key, iter.child_key(iter.current as int)),
    ensures
        forall|ti: int, b: int, j: int| !found_at(tables, key, ti, b, j),
{
    lemma_winner_found(iter, tables, key);
    let c = iter.current as int;
    let wb = iter.iters@[c].cur_b();
    let wj = iter.iters@[c].cur_j();
    let kw = tables[c].key(wb, wj);
    assert forall|ti: int, b: int, j: int| !found_at(tables, key, ti, b, j) by {
        if found_at(tables, key, ti, b, j) {
            let k0 = tables[ti].key(b, j);
            assert(spec_compare_key(k0, kw) != Ordering::Greater);
            assert(spec_compare_key(kw, k0) != Ordering::Greater);
            crate::format::lemma_compare_key_antisym(k0, kw);
            assert(spec_compare_key(k0, kw) == Ordering::Equal);
            crate::format::lemma_compare_key_eq(k0, kw);
            assert(spec_same_key(key, kw));
            assert(false);
        }
    };
}

/// Sum of the sizes the tables account for.
pub open spec fn tables_size_sum(tables: Seq<Table>) -> int
    decreases tables.len(),
{
    if tables.len() == 0 {
        0
    } else {
        tables_size_sum(tables.drop_last()) + tables.last().table_size
    }
}

/// One level of the tree: its tables and their total size.
pub struct LevelHandler {
    /// Engine configuration.
    pub opts: AgateOptions,
    /// Which level this handler serves.
    pub level: usize,
    /// The level's resident tables, earlier ones newer.
    pub tables: Vec<Table>,
    /// Sum of the sizes of the resident tables.
    pub total_size: u64,
}

impl LevelHandler {
    /// All resident tables are well-formed, and `total_size` accounts
    /// for exactly the resident tables.
    pub open spec fn wf(&self) -> bool {
        &&& forall|i: int| 0 <= i < self.tables.len() ==> (#[trigger] self.tables@[i]).wf()
        &&& self.total_size as int == tables_size_sum(self.tables@)
    }

    /// An empty handler for level `level`.
    pub fn new(opts: AgateOptions, level: usize) -> (r: Self)
        ensures
            r.wf(),
            r.opts == opts,
            r.level == level,
            r.tables@.len() == 0,
            r.total_size == 0,
    {
        LevelHandler { opts, level, tables: Vec::new(), total_size: 0 }
    }

    /// Admits a table to level 0 unless the level already holds the
    /// stall bound; admission appends the table and accounts its size.
    /// The size bound is a machine limit of the u64 accounting.
    pub fn try_add_l0_table(&mut self, table: Table) -> (r: bool)
        requires
            old(self).level == 0,
            old(self).total_size + table.table_size <= u64::MAX,
        ensures
            old(self).wf() && table.wf() ==> final(self).wf(),
            final(self).level == old(self).level,
            final(self).opts == old(self).opts,
            if old(self).tables@.len() >= old(self).opts.num_level_zero_tables_stall {
                &&& !r
                &&& final(self).tables@ == old(self).tables@
                &&& final(self).total_size == old(self).total_size
            } else {
                &&& r
                &&& final(self).tables@ == old(self).tables@.push(table)
                &&& final(self).total_size == old(self).total_size + table.table_size
            },
    {
        if self.tables.len() >= self.opts.num_level_zero_tables_stall {
            return false;
        }
        self.total_size = self.total_size + table.size();
        let ghost sz = table.table_size;
        self.tables.push(table);
        proof {
            if old(self).wf() && table.wf() {
                assert(self.tables@.drop_last() =~= old(self).tables@);
                assert(self.tables@.last().table_size == sz);
                assert forall|i: int| 0 <= i < self.tables.len() implies (
                #[trigger] self.tables@[i]).wf() by {
                    if i < self.tables.len() - 1 {
                        assert(self.tables@[i] == old(self).tables@[i]);
                    }
                };
            }
        }
        true
    }

    /// Number of resident tables.
    pub fn num_tables(&self) -> (r: usize)
        ensures
            r == self.tables@.len(),
    {
        self.tables.len()
    }

    /// Forward iterators over each resident table, in table order.
    fn make_iterators(&self) -> (r: Vec<TableIterator>)
        requires
            self.wf(),
        ensures
            r.len() == self.tables.len(),
            forall|k: int|
                0 <= k < r.len() ==> (#[trigger] r@[k]).inv() && !r@[k].spec_reversed() && r@[k].table.wf() && r@[k].err is None,
            forall|k: int, b: int, j: int|
                0 <= k < r.len() ==> (pos_ok(&(#[trigger] r@[k]).table, b, j) <==> #[trigger] pos_ok(
                    &self.tables@[k],
                    b,
                    j,
                )),
            forall|k: int, b: int, j: int|
                0 <= k < r.len() && (#[trigger] pos_ok(&self.tables@[k], b, j)) ==> (
                #[trigger] r@[k]).table.key(b, j) == self.tables@[k].key(b, j) && r@[k].table.val(
                    b,
                    j,
                ) == self.tables@[k].val(b, j),
    {
        let nt = self.tables.len();
        let mut iters: Vec<TableIterator> = Vec::new();
        let mut i: usize = 0;
        while i < nt
            invariant
                i <= nt,
                nt == self.tables.len(),
                self.wf(),
                iters.len() == i,
                forall|k: int|
                    0 <= k < i ==> (#[trigger] iters@[k]).inv() && !iters@[k].spec_reversed()
                        && iters@[k].table.wf() && iters@[k].err is None,
                forall|k: int, b: int, j: int|
                    0 <= k < i ==> (pos_ok(&(#[trigger] iters@[k]).table, b, j) <==> #[trigger] pos_ok(
                        &self.tables@[k],
                        b,
                        j,
                    )),
                forall|k: int, b: int, j: int|
                    0 <= k < i && (#[trigger] pos_ok(&self.tables@[k], b, j)) ==> (
                    #[trigger] iters@[k]).table.key(b, j) == self.tables@[k].key(b, j) && iters@[k].table.val(b, j) == self.tables@[k].val(b, j),
            decreases nt - i,
        {
            let it = self.tables[i].new_iterator(0);
            let ghost pre = iters@;
            iters.push(it);
            proof {
                assert(iters@[i as int] == it);
                assert(1usize << 1usize == 2usize) by (bit_vector);
                assert(0usize & 2usize == 0usize) by (bit_vector);
                assert(!it.spec_reversed());
                assert forall|k: int| 0 <= k < i + 1 implies (#[trigger] iters@[k]).inv() && !iters@[k].spec_reversed() && iters@[k].table.wf() && iters@[k].err is None by {
                    if k < i {
                        assert(iters@[k] == pre[k]);
                    }
                };
                assert forall|k: int, b: int, j: int|
                    0 <= k < i + 1 implies (pos_ok(&(#[trigger] iters@[k]).table, b, j)
                    <==> #[trigger] pos_ok(&self.tables@[k], b, j)) by {
                    if k < i {
                        assert(iters@[k] == pre[k]);
                        assert(pos_ok(&pre[k].table, b, j) <==> pos_ok(&self.tables@[k], b, j));
                    } else {
                        assert(iters@[k] == it);
                        assert(pos_ok(&it.table, b, j) <==> pos_ok(&self.tables@[k], b, j));
                    }
                };
                assert forall|k: int, b: int, j: int|
                    0 <= k < i + 1 && (#[trigger] pos_ok(&self.tables@[k], b, j)) implies (
                #[trigger] iters@[k]).table.key(b, j) == self.tables@[k].key(b, j) && iters@[k].table.val(b, j) == self.tables@[k].val(b, j) by {
                    if k < i {
                        assert(iters@[k] == pre[k]);
                        assert(pre[k].table.key(b, j) == self.tables@[k].key(b, j));
                        assert(pre[k].table.val(b, j) == self.tables@[k].val(b, j));
                    } else {
                        assert(iters@[k] == it);
                        assert(it.table.key(b, j) == self.tables@[k].key(b, j));
                        assert(it.table.val(b, j) == self.tables@[k].val(b, j));
                    }
                };
            }
            i = i + 1;
        }
        iters
    }

    /// Looks the key up within this level: merges all tables, seeks,
    /// and hands back the least entry at or past `key` when it shares
    /// the user key. Versions are not filtered here; the caller does
    /// that.
    #[verifier::rlimit(100)]
    pub fn get(&self, key: &Vec<u8>) -> (r: Result<Option<Value>, Error>)
        requires
            self.wf(),
            key@.len() >= 8,
        ensures
            r is Ok,
            ({
                let o = r->Ok_0;
                &&& (o is Some <==> exists|ti: int, b: int, j: int|
                    found_at(self.tables@, key@, ti, b, j))
                &&& (o matches Some(v) ==> exists|ti: int, b: int, j: int|
                    {
                        &&& #[trigger] found_at(self.tables@, key@, ti, b, j)
                        &&& ({
                            let s = self.tables@[ti].val(b, j);
                            let d = crate::codec::spec_dec_varint(s.skip(2));
                            &&& v.meta == s[0]
                            &&& v.user_meta == s[1]
                            &&& v.expires_at == d->Some_0.0
                            &&& v.value@ == s.skip(2 + d->Some_0.1 as int)
                            &&& v.version == spec_key_ts(self.tables@[ti].key(b, j))
                        })
                    })
            }),
    {
        let nt = self.tables.len();
        if nt == 0 {
            return Ok(None);
        }
        let iters = self.make_iterators();
        let mut iter = MergeIterator::from_iterators(iters, false);
        iter.seek(key);
        if !iter.valid() {
            proof {
                lemma_merge_eof_no_found(&iter, self.tables@, key@);
            }
            return Ok(None);
        }
        let is_same = same_key(key, iter.key());
        proof {
            lemma_winner_found(&iter, self.tables@, key@);
        }
        if !is_same {
            proof {
                lemma_wrong_user_no_found(&iter, self.tables@, key@);
            }
            return Ok(None);
        }
        proof {
            let c = iter.current as int;
            let wb = iter.iters@[c].cur_b();
            let wj = iter.iters@[c].cur_j();
            assert(iter.child_key(c) == self.tables@[c].key(wb, wj));
            assert(spec_same_key(key@, self.tables@[c].key(wb, wj)));
            assert(found_at(self.tables@, key@, c, wb, wj));
        }
        let v = iter.value();
        proof {
            let c = iter.current as int;
            let wb = iter.iters@[c].cur_b();
            let wj = iter.iters@[c].cur_j();
            assert(iter.iters@[c].cur_val() == self.tables@[c].val(wb, wj));
            assert(found_at(self.tables@, key@, c, wb, wj) && ({
                let s = self.tables@[c].val(wb, wj);
                let d = crate::codec::spec_dec_varint(s.skip(2));
                &&& v.meta == s[0]
                &&& v.user_meta == s[1]
                &&& v.expires_at == d->Some_0.0
                &&& v.value@ == s.skip(2 + d->Some_0.1 as int)
                &&& v.version == spec_key_ts(self.tables@[c].key(wb, wj))
            }));
        }
        Ok(Some(v))
    }
}

/// Per-level compaction bookkeeping; a placeholder in this core.
pub struct LevelCompactStatus {
    /// Bytes scheduled for deletion at this level.
    pub del_size: u64,
}

/// Compaction status across levels; a placeholder in this core.
pub struct CompactStatus {
    /// One entry per level.
    pub levels: Vec<LevelCompactStatus>,
}

/// The level at `key`'s lookup misses: it holds nothing at or past the
/// key with its user key, or what it holds is a tombstone or carries a
/// version other than the requested one.
pub open spec fn level_miss(h: LevelHandler, key: Seq<u8>) -> bool {
    ||| forall|ti: int, b: int, j: int| !(#[trigger] found_at(h.tables@, key, ti, b, j))
    ||| exists|ti: int, b: int, j: int|
        #[trigger] found_at(h.tables@, key, ti, b, j) && (spec_is_tombstone(h.tables@[ti].val(b, j))
            || spec_key_ts(h.tables@[ti].key(b, j)) != spec_key_ts(key))
}

/// The level's lookup hits: its least entry at or past the key shares
/// the user key, is no tombstone, carries exactly the requested
/// version, and `v` is its decoded value.
pub open spec fn level_hit(h: LevelHandler, key: Seq<u8>, v: Value) -> bool {
    exists|ti: int, b: int, j: int|
        #[trigger] found_at(h.tables@, key, ti, b, j) && ({
            let s = h.tables@[ti].val(b, j);
            let d = crate::codec::spec_dec_varint(s.skip(2));
            &&& !spec_is_tombstone(s)
            &&& spec_key_ts(h.tables@[ti].key(b, j)) == spec_key_ts(key)
            &&& v.meta == s[0]
            &&& v.user_meta == s[1]
            &&& v.expires_at == d->Some_0.0
            &&& v.value@ == s.skip(2 + d->Some_0.1 as int)
            &&& v.version == spec_key_ts(h.tables@[ti].key(b, j))
        })
}

/// The per-level handler collection: levels in order, the next free
/// file id, and the compaction status stub.
pub struct LevelsController {
    /// Next file id to hand out.
    pub next_file_id: u64,
    /// One handler per level; `levels[i].level == i`.
    pub levels: Vec<LevelHandler>,
    /// Engine configuration.
    pub opts: AgateOptions,
    /// Compaction status stub.
    pub cpt_status: CompactStatus,
}

impl LevelsController {
    /// Handlers are well-formed and numbered by their position.
    pub open spec fn wf(&self) -> bool {
        forall|i: int|
            0 <= i < self.levels.len() ==> (#[trigger] self.levels@[i]).wf() && self.levels@[i].level == i
    }

    /// Builds `max_levels` empty handlers and a zeroed file-id counter.
    pub fn new(opts: AgateOptions) -> (r: Result<LevelsController, Error>)
        requires
            opts.max_levels >= 1,
        ensures
            r matches Ok(c) && c.wf() && c.levels@.len() == opts.max_levels && c.next_file_id == 0
                && c.opts == opts && forall|i: int|
                0 <= i < c.levels@.len() ==> (#[trigger] c.levels@[i]).tables@.len() == 0 && c.levels@[i].total_size == 0,
    {
        let mut levels: Vec<LevelHandler> = Vec::new();
        let mut cpt_levels: Vec<LevelCompactStatus> = Vec::new();
        let mut i: usize = 0;
        while i < opts.max_levels
            invariant
                i <= opts.max_levels,
                levels.len() == i,
                forall|k: int|
                    0 <= k < i ==> (#[trigger] levels@[k]).wf() && levels@[k].level == k
                        && levels@[k].tables@.len() == 0 && levels@[k].total_size == 0,
            decreases opts.max_levels - i,
        {
            levels.push(LevelHandler::new(opts.clone(), i));
            cpt_levels.push(LevelCompactStatus { del_size: 0 });
            i = i + 1;
        }
        Ok(
            LevelsController {
                next_file_id: 0,
                levels,
                opts,
                cpt_status: CompactStatus { levels: cpt_levels },
            },
        )
    }

    /// Hands out the next unused file id; monotonic.
    pub fn reserve_file_id(&mut self) -> (r: u64)
        requires
            old(self).next_file_id < u64::MAX,
        ensures
            r == old(self).next_file_id,
            final(self).next_file_id == old(self).next_file_id + 1,
            final(self).levels == old(self).levels,
            final(self).opts == old(self).opts,
    {
        let id = self.next_file_id;
        self.next_file_id = self.next_file_id + 1;
        id
    }

    /// One admission attempt at level 0; the caller loops and waits
    /// while this reports a stall.
    pub fn try_add_l0_table(&mut self, table: Table) -> (r: bool)
        requires
            old(self).wf(),
            old(self).levels@.len() >= 1,
            table.wf(),
            old(self).levels@[0].total_size + table.table_size <= u64::MAX,
        ensures
            final(self).wf(),
            final(self).opts == old(self).opts,
            final(self).levels@.len() == old(self).levels@.len(),
            if old(self).levels@[0].tables@.len() >= old(
                self,
            ).levels@[0].opts.num_level_zero_tables_stall {
                !r && final(self).levels@[0].tables@ == old(self).levels@[0].tables@
                    && final(self).levels@[0].total_size == old(self).levels@[0].total_size
            } else {
                r && final(self).levels@[0].tables@ == old(self).levels@[0].tables@.push(table)
                    && final(self).levels@[0].total_size == old(self).levels@[0].total_size
                    + table.table_size
            },
            forall|i: int|
                1 <= i < old(self).levels@.len() ==> #[trigger] final(self).levels@[i] == old(
                    self,
                ).levels@[i],
    {
        let h = vstd::std_specs::vec::vec_index_mut(&mut self.levels, 0);
        let r = h.try_add_l0_table(table);
        proof {
            assert forall|i: int|
                0 <= i < self.levels.len() implies (#[trigger] self.levels@[i]).wf()
                && self.levels@[i].level == i by {
                if i > 0 {
                    assert(self.levels@[i] == old(self).levels@[i]);
                }
            };
        }
        r
    }

    /// Walks the levels from `start_level` up: skips tombstones and
    /// versions other than the key's, returns the first visible value,
    /// and falls back to the caller's candidate when every level
    /// misses.
    #[verifier::rlimit(100)]
    pub fn get(&self, key: &Vec<u8>, max_value: Value, start_level: usize) -> (r: Result<
        Value,
        Error,
    >)
        requires
            self.wf(),
            key@.len() >= 8,
        ensures
            r is Ok,
            ({
                let v = r->Ok_0;
                ||| exists|li: int|
                    start_level <= li < self.levels@.len() && #[trigger] level_hit(
                        self.levels@[li],
                        key@,
                        v,
                    ) && forall|lj: int|
                        start_level <= lj < li ==> level_miss(#[trigger] self.levels@[lj], key@)
                ||| (v == max_value && forall|lj: int|
                    start_level <= lj < self.levels@.len() ==> level_miss(
                        #[trigger] self.levels@[lj],
                        key@,
                    ))
            }),
    {
        let version = get_ts(key);
        let nl = self.levels.len();
        let mut level: usize = start_level;
        while level < nl
            invariant
                start_level <= level || level == start_level,
                level <= nl || start_level >= nl,
                nl == self.levels.len(),
                self.wf(),
                key@.len() >= 8,
                version == spec_key_ts(key@),
                start_level <= level,
                forall|lj: int|
                    start_level <= lj < level ==> level_miss(#[trigger] self.levels@[lj], key@),
            decreases nl - level,
        {
            let res = self.levels[level].get(key);
            match res {
                Ok(Some(value)) => {
                    if value.value.len() == 0 && value.meta == 0 {
                        proof {
                            lemma_some_is_miss_or_hit(
                                &self.levels@[level as int],
                                key@,
                                &value,
                                true,
                                version,
                            );
                        }
                        level = level + 1;
                        continue ;
                    }
                    if value.version == version {
                        proof {
                            lemma_some_is_hit(&self.levels@[level as int], key@, &value, version);
                        }
                        return Ok(value);
                    }
                    proof {
                        lemma_some_is_miss_or_hit(
                            &self.levels@[level as int],
                            key@,
                            &value,
                            false,
                            version,
                        );
                    }
                },
                Ok(None) => {
                },
                Err(_) => {
                },
            }
            level = level + 1;
        }
        Ok(max_value)
    }
}

/// A handler result that is a tombstone, or that carries another
/// version, witnesses a level miss.
#[verifier::rlimit(100)]
proof fn lemma_some_is_miss_or_hit(
    h: &LevelHandler,
    key: Seq<u8>,
    value: &Value,
    tomb: bool,
    version: u64,
)
    requires
        exists|ti: int, b: int, j: int|
            #[trigger] found_at(h.tables@, key, ti, b, j) && ({
                let s = h.tables@[ti].val(b, j);
                let d = crate::codec::spec_dec_varint(s.skip(2));
                &&& value.meta == s[0]
                &&& value.user_meta == s[1]
                &&& value.value@ == s.skip(2 + d->Some_0.1 as int)
                &&& value.version == spec_key_ts(h.tables@[ti].key(b, j))
            }),
        h.wf(),
        tomb ==> value.value@.len() == 0 && value.meta == 0,
        !tomb ==> value.version != version,
        version == spec_key_ts(key),
    ensures
        level_miss(*h, key),
{
    let (ti, b, j): (int, int, int) = choose|ti: int, b: int, j: int|
        #[trigger] found_at(h.tables@, key, ti, b, j) && ({
            let s = h.tables@[ti].val(b, j);
            let d = crate::codec::spec_dec_varint(s.skip(2));
            &&& value.meta == s[0]
            &&& value.user_meta == s[1]
            &&& value.value@ == s.skip(2 + d->Some_0.1 as int)
            &&& value.version == spec_key_ts(h.tables@[ti].key(b, j))
        });
    let s = h.tables@[ti].val(b, j);
    assert(h.tables@[ti].wf());
    assert(crate::table::block_vals_ok(h.tables@[ti].blocks@[b]));
    assert(h.tables@[ti].blocks@[b].val(j).len() >= 2 && crate::codec::spec_dec_varint(
        h.tables@[ti].blocks@[b].val(j).skip(2),
    ) is Some);
    crate::codec::lemma_dec_sound(s.skip(2));
    if tomb {
        assert(spec_is_tombstone(s));
    } else {
        assert(spec_key_ts(h.tables@[ti].key(b, j)) != spec_key_ts(key));
    }
}

/// A handler result that is no tombstone and carries exactly the
/// requested version witnesses a level hit.
#[verifier::rlimit(100)]
proof fn lemma_some_is_hit(h: &LevelHandler, key: Seq<u8>, value: &Value, version: u64)
    requires
        exists|ti: int, b: int, j: int|
            #[trigger] found_at(h.tables@, key, ti, b, j) && ({
                let s = h.tables@[ti].val(b, j);
                let d = crate::codec::spec_dec_varint(s.skip(2));
                &&& value.meta == s[0]
                &&& value.user_meta == s[1]
                &&& value.expires_at == d->Some_0.0
                &&& value.value@ == s.skip(2 + d->Some_0.1 as int)
                &&& value.version == spec_key_ts(h.tables@[ti].key(b, j))
            }),
        h.wf(),
        !(value.value@.len() == 0 && value.meta == 0),
        value.version == version,
        version == spec_key_ts(key),
    ensures
        level_hit(*h, key, *value),
{
    let (ti, b, j): (int, int, int) = choose|ti: int, b: int, j: int|
        #[trigger] found_at(h.tables@, key, ti, b, j) && ({
            let s = h.tables@[ti].val(b, j);
            let d = crate::codec::spec_dec_varint(s.skip(2));
            &&& value.meta == s[0]
            &&& value.user_meta == s[1]
            &&& value.expires_at == d->Some_0.0
            &&& value.value@ == s.skip(2 + d->Some_0.1 as int)
            &&& value.version == spec_key_ts(h.tables@[ti].key(b, j))
        });
    let s = h.tables@[ti].val(b, j);
    assert(h.tables@[ti].wf());
    assert(crate::table::block_vals_ok(h.tables@[ti].blocks@[b]));
    assert(h.tables@[ti].blocks@[b].val(j).len() >= 2 && crate::codec::spec_dec_varint(
        h.tables@[ti].blocks@[b].val(j).skip(2),
    ) is Some);
    assert(!spec_is_tombstone(s)) by {
        if spec_is_tombstone(s) {
            crate::codec::lemma_dec_sound(s.skip(2));
            assert(value.value@.len() == 0 && value.meta == 0);
        }
    };
}

} // verus!
