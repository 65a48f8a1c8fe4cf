//! N-way ordered merge over table iterators.
//!
//! The merge yields the globally smallest current key; for equal full
//! keys the earlier input wins, so input order is priority order. On a
//! step, every other input standing on the same user key is advanced
//! too, so a user key is yielded at most once per step. Reversal flips
//! the order.

use vstd::prelude::*;
use core::cmp::Ordering;
use crate::format::{compare_key, same_key, spec_compare_key, spec_same_key};
use crate::table::{pos_before, pos_ok, TableIterator};
use crate::value::Value;

verus! {

/// Direction-sensitive key order: reversal flips the comparison.
pub open spec fn mcmp(rev: bool, a: Seq<u8>, b: Seq<u8>) -> Ordering {
    if rev {
        spec_compare_key(b, a)
    } else {
        spec_compare_key(a, b)
    }
}

/// Every child stands at the least entry of its table at or past
/// `key`, or reports end-of-iteration when its table has none.
pub open spec fn children_sought_fwd(m: &MergeIterator, key: Seq<u8>) -> bool {
    forall|k: int|
        0 <= k < m.n() ==> {
            let it = #[trigger] m.iters@[k];
            let t = it.table;
            &&& (it.err is None <==> exists|b: int, j: int|
                pos_ok(&t, b, j) && spec_compare_key(#[trigger] t.key(b, j), key)
                    != Ordering::Less)
            &&& (it.err is None ==> spec_compare_key(it.cur_key(), key) != Ordering::Less
                && forall|b: int, j: int|
                pos_ok(&t, b, j) && pos_before(b, j, it.cur_b(), it.cur_j())
                    ==> spec_compare_key(#[trigger] t.key(b, j), key) == Ordering::Less)
        }
}

/// Every child stands at the greatest entry of its table at or before
/// `key`, or reports end-of-iteration when its table has none.
pub open spec fn children_sought_rev(m: &MergeIterator, key: Seq<u8>) -> bool {
    forall|k: int|
        0 <= k < m.n() ==> {
            let it = #[trigger] m.iters@[k];
            let t = it.table;
            &&& (it.err is None <==> exists|b: int, j: int|
                pos_ok(&t, b, j) && spec_compare_key(#[trigger] t.key(b, j), key)
                    != Ordering::Greater)
            &&& (it.err is None ==> spec_compare_key(it.cur_key(), key) != Ordering::Greater
                && forall|b: int, j: int|
                pos_ok(&t, b, j) && pos_before(it.cur_b(), it.cur_j(), b, j)
                    ==> spec_compare_key(#[trigger] t.key(b, j), key) == Ordering::Greater)
        }
}

/// N-way merge over table iterators, all traversing the same way.
pub struct MergeIterator {
    /// The child iterators, earlier ones having priority.
    pub iters: Vec<TableIterator>,
    /// Whether the merge yields keys in decreasing order.
    pub reversed: bool,
    /// Index of the winning child, or the child count when exhausted.
    pub current: usize,
}

impl MergeIterator {
    /// Number of children.
    pub open spec fn n(&self) -> int {
        self.iters.len() as int
    }

    /// Whether child `i` stands on an entry.
    pub open spec fn child_valid(&self, i: int) -> bool {
        self.iters@[i].err is None
    }

    /// The key child `i` stands on.
    pub open spec fn child_key(&self, i: int) -> Seq<u8> {
        self.iters@[i].cur_key()
    }

    /// Structural invariant: children are sound iterators of the same
    /// direction, and each child with no error stands on an entry.
    pub open spec fn inv(&self) -> bool {
        &&& forall|i: int|
            0 <= i < self.iters.len() ==> (#[trigger] self.iters@[i]).inv() && self.iters@[i].spec_reversed() == self.reversed
        &&& self.current as int <= self.n()
    }

    /// Every child with no error stands on an entry; holds once all
    /// children have been positioned.
    pub open spec fn ready(&self) -> bool {
        forall|i: int|
            0 <= i < self.iters.len() ==> ((#[trigger] self.iters@[i]).err is None
                ==> self.iters@[i].positioned())
    }

    /// The merged cursor stands on the least current child key, with
    /// the earliest child winning ties.
    pub open spec fn picked(&self) -> bool {
        &&& ((self.current as int) < self.n() <==> exists|i: int|
            0 <= i < self.n() && (#[trigger] self.iters@[i]).err is None)
        &&& (self.current as int) < self.n() ==> {
            &&& self.child_valid(self.current as int)
            &&& forall|i: int|
                0 <= i < self.n() && (#[trigger] self.iters@[i]).err is None ==> mcmp(
                    self.reversed,
                    self.child_key(self.current as int),
                    self.child_key(i),
                ) != Ordering::Greater
            &&& forall|i: int|
                0 <= i < self.current as int && (#[trigger] self.iters@[i]).err is None ==> mcmp(
                    self.reversed,
                    self.child_key(self.current as int),
                    self.child_key(i),
                ) == Ordering::Less
        }
    }

    /// Builds a merge over `iters`; position it with a seek first.
    pub fn from_iterators(iters: Vec<TableIterator>, reversed: bool) -> (r: MergeIterator)
        requires
            forall|i: int|
                0 <= i < iters.len() ==> (#[trigger] iters@[i]).inv() && iters@[i].spec_reversed()
                    == reversed,
        ensures
            r.inv(),
            r.iters == iters,
            r.reversed == reversed,
            r.current == iters.len(),
    {
        let n = iters.len();
        MergeIterator { iters, reversed, current: n }
    }

    /// Whether the merge stands on an entry.
    pub fn valid(&self) -> (r: bool)
        ensures
            r == ((self.current as int) < self.n()),
    {
        self.current < self.iters.len()
    }

    /// Re-elects the winning child among the valid children.
    fn pick(&mut self)
        requires
            old(self).inv(),
            old(self).ready(),
        ensures
            final(self).inv(),
            final(self).iters == old(self).iters,
            final(self).reversed == old(self).reversed,
            final(self).picked(),
            final(self).ready(),
    {
        let n = self.iters.len();
        let mut best: usize = n;
        let mut i: usize = 0;
        while i < n
            invariant
                i <= n,
                n == self.iters.len(),
                self.inv(),
                self.ready(),
                best == n || best < i,
                best == n ==> forall|j: int|
                    0 <= j < i ==> !((#[trigger] self.iters@[j]).err is None),
                best < n ==> self.child_valid(best as int) && forall|j: int|
                    0 <= j < i && (#[trigger] self.iters@[j]).err is None ==> mcmp(
                        self.reversed,
                        self.child_key(best as int),
                        self.child_key(j),
                    ) != Ordering::Greater,
                best < n ==> forall|j: int|
                    0 <= j < best as int && (#[trigger] self.iters@[j]).err is None ==> mcmp(
                        self.reversed,
                        self.child_key(best as int),
                        self.child_key(j),
                    ) == Ordering::Less,
            decreases n - i,
        {
            if self.iters[i].valid() {
                proof {
                    crate::format::lemma_compare_key_refl(self.child_key(i as int));
                }
                if best == n {
                    best = i;
                } else {
                    let c = compare_key(self.iters[i].key(), self.iters[best].key());
                    let take = if self.reversed {
                        matches!(c, Ordering::Greater)
                    } else {
                        matches!(c, Ordering::Less)
                    };
                    if take {
                        proof {
                            crate::format::lemma_compare_key_antisym(
                                self.child_key(i as int),
                                self.child_key(best as int),
                            );
                            assert forall|j: int|
                                0 <= j < i && (#[trigger] self.iters@[j]).err is None implies mcmp(
                                self.reversed,
                                self.child_key(i as int),
                                self.child_key(j),
                            ) == Ordering::Less by {
                                crate::format::lemma_compare_key_antisym(
                                    self.child_key(best as int),
                                    self.child_key(j),
                                );
                                if self.reversed {
                                    crate::format::lemma_compare_key_trans(
                                        self.child_key(j),
                                        self.child_key(best as int),
                                        self.child_key(i as int),
                                    );
                                } else {
                                    crate::format::lemma_compare_key_trans(
                                        self.child_key(i as int),
                                        self.child_key(best as int),
                                        self.child_key(j),
                                    );
                                }
                                crate::format::lemma_compare_key_antisym(
                                    self.child_key(j),
                                    self.child_key(i as int),
                                );
                            };
                        }
                        best = i;
                    } else {
                        proof {
                            crate::format::lemma_compare_key_antisym(
                                self.child_key(i as int),
                                self.child_key(best as int),
                            );
                        }
                    }
                }
            }
            i = i + 1;
        }
        self.current = best;
    }

    /// Positions every child at the first entry at or past `key` in
    /// traversal order and elects the winner.
    pub fn seek(&mut self, key: &Vec<u8>)
        requires
            old(self).inv(),
            key@.len() >= 8,
        ensures
            final(self).inv(),
            final(self).ready(),
            final(self).picked(),
            final(self).reversed == old(self).reversed,
            final(self).n() == old(self).n(),
            forall|i: int|
                0 <= i < old(self).n() ==> (#[trigger] final(self).iters@[i]).table == old(
                    self,
                ).iters@[i].table,
            !old(self).reversed ==> children_sought_fwd(&*final(self), key@),
            old(self).reversed ==> children_sought_rev(&*final(self), key@),
    {
        let n = self.iters.len();
        let mut i: usize = 0;
        while i < n
            invariant
                i <= n,
                n == self.iters.len(),
                n == old(self).iters.len(),
                self.reversed == old(self).reversed,
                self.current == old(self).current,
                self.current as int <= n,
                key@.len() >= 8,
                forall|k: int|
                    0 <= k < n ==> (#[trigger] self.iters@[k]).inv() && self.iters@[k].spec_reversed() == self.reversed,
                forall|k: int|
                    i <= k < n ==> #[trigger] self.iters@[k] == old(self).iters@[k],
                forall|k: int|
                    0 <= k < n ==> (#[trigger] self.iters@[k]).table == old(self).iters@[k].table,
                forall|k: int|
                    0 <= k < i ==> ((#[trigger] self.iters@[k]).err is None ==> self.iters@[k].positioned()),
                !self.reversed ==> forall|k: int|
                    0 <= k < i ==> {
                        let t = old(self).iters@[k].table;
                        &&& ((#[trigger] self.iters@[k]).err is None <==> exists|b: int, j: int|
                            pos_ok(&t, b, j) && spec_compare_key(#[trigger] t.key(b, j), key@)
                                != Ordering::Less)
                        &&& (self.iters@[k].err is None ==> spec_compare_key(
                            self.iters@[k].cur_key(),
                            key@,
                        ) != Ordering::Less && forall|b: int, j: int|
                            pos_ok(&t, b, j) && pos_before(
                                b,
                                j,
                                self.iters@[k].cur_b(),
                                self.iters@[k].cur_j(),
                            ) ==> spec_compare_key(#[trigger] t.key(b, j), key@)
                                == Ordering::Less)
                    },
                self.reversed ==> forall|k: int|
                    0 <= k < i ==> {
                        let t = old(self).iters@[k].table;
                        &&& ((#[trigger] self.iters@[k]).err is None <==> exists|b: int, j: int|
                            pos_ok(&t, b, j) && spec_compare_key(#[trigger] t.key(b, j), key@)
                                != Ordering::Greater)
                        &&& (self.iters@[k].err is None ==> spec_compare_key(
                            self.iters@[k].cur_key(),
                            key@,
                        ) != Ordering::Greater && forall|b: int, j: int|
                            pos_ok(&t, b, j) && pos_before(
                                self.iters@[k].cur_b(),
                                self.iters@[k].cur_j(),
                                b,
                                j,
                            ) ==> spec_compare_key(#[trigger] t.key(b, j), key@)
                                == Ordering::Greater)
                    },
            decreases n - i,
        {
            let child = vstd::std_specs::vec::vec_index_mut(&mut self.iters, i);
            child.seek(key);
            i = i + 1;
        }
        proof {
            if !self.reversed {
                assert forall|k: int| 0 <= k < self.n() implies {
                    let it = #[trigger] self.iters@[k];
                    let t = it.table;
                    &&& (it.err is None <==> exists|b: int, j: int|
                        pos_ok(&t, b, j) && spec_compare_key(#[trigger] t.key(b, j), key@)
                            != Ordering::Less)
                    &&& (it.err is None ==> spec_compare_key(it.cur_key(), key@)
                        != Ordering::Less && forall|b: int, j: int|
                        pos_ok(&t, b, j) && pos_before(b, j, it.cur_b(), it.cur_j())
                            ==> spec_compare_key(#[trigger] t.key(b, j), key@)
                            == Ordering::Less)
                } by {
                    assert(self.iters@[k].table == old(self).iters@[k].table);
                };
            } else {
                assert forall|k: int| 0 <= k < self.n() implies {
                    let it = #[trigger] self.iters@[k];
                    let t = it.table;
                    &&& (it.err is None <==> exists|b: int, j: int|
                        pos_ok(&t, b, j) && spec_compare_key(#[trigger] t.key(b, j), key@)
                            != Ordering::Greater)
                    &&& (it.err is None ==> spec_compare_key(it.cur_key(), key@)
                        != Ordering::Greater && forall|b: int, j: int|
                        pos_ok(&t, b, j) && pos_before(it.cur_b(), it.cur_j(), b, j)
                            ==> spec_compare_key(#[trigger] t.key(b, j), key@)
                            == Ordering::Greater)
                } by {
                    assert(self.iters@[k].table == old(self).iters@[k].table);
                };
            }
        }
        self.pick();
    }

    /// The winning child's key.
    pub fn key(&self) -> (r: &Vec<u8>)
        requires
            self.inv(),
            self.ready(),
            self.picked(),
            (self.current as int) < self.n(),
        ensures
            r@ == self.child_key(self.current as int),
    {
        self.iters[self.current].key()
    }

    /// The winning child's value, version taken from its key.
    pub fn value(&self) -> (r: Value)
        requires
            self.inv(),
            self.ready(),
            self.picked(),
            (self.current as int) < self.n(),
        ensures
            ({
                let it = self.iters@[self.current as int];
                let s = it.cur_val();
                let d = crate::codec::spec_dec_varint(s.skip(2));
                &&& r.meta == s[0]
                &&& r.user_meta == s[1]
                &&& r.expires_at == d->Some_0.0
                &&& r.value@ == s.skip(2 + d->Some_0.1 as int)
                &&& r.version == crate::format::spec_key_ts(it.cur_key())
            }),
    {
        self.iters[self.current].value()
    }

    /// Advances the merge one step: every other child standing on the
    /// yielded user key steps strictly past its entry too, children on
    /// other user keys stay put, then the winner steps, and a new
    /// winner is elected. Yielded keys strictly ascend in traversal
    /// order.
    #[verifier::rlimit(100)]
    pub fn next(&mut self)
        requires
            old(self).inv(),
            old(self).ready(),
            old(self).picked(),
            (old(self).current as int) < old(self).n(),
        ensures
            final(self).inv(),
            final(self).ready(),
            final(self).picked(),
            final(self).reversed == old(self).reversed,
            final(self).n() == old(self).n(),
            forall|i: int|
                0 <= i < old(self).n() ==> (#[trigger] final(self).iters@[i]).table == old(
                    self,
                ).iters@[i].table,
            (final(self).current as int) < final(self).n() ==> mcmp(
                old(self).reversed,
                old(self).child_key(old(self).current as int),
                final(self).child_key(final(self).current as int),
            ) == Ordering::Less,
            forall|k: int|
                0 <= k < old(self).n() ==> {
                    let before = old(self).iters@[k];
                    let after = #[trigger] final(self).iters@[k];
                    &&& (before.err is None && spec_same_key(
                        old(self).child_key(old(self).current as int),
                        before.cur_key(),
                    ) ==> (after.err is None ==> mcmp(
                        old(self).reversed,
                        before.cur_key(),
                        after.cur_key(),
                    ) == Ordering::Less))
                    &&& (k != old(self).current as int && !(before.err is None && spec_same_key(
                        old(self).child_key(old(self).current as int),
                        before.cur_key(),
                    )) ==> after == before)
                },
    {
        let n = self.iters.len();
        let cur = self.current;
        let ck = crate::block::clone_bytes(self.iters[cur].key());
        let ghost old_keyv = ck@;
        proof {
            assert forall|k: int|
                0 <= k < n && (#[trigger] old(self).iters@[k]).err is None implies mcmp(
                old(self).reversed,
                old_keyv,
                old(self).iters@[k].cur_key(),
            ) != Ordering::Greater by {
                assert(old(self).child_valid(k));
                assert(old(self).child_key(k) == old(self).iters@[k].cur_key());
            };
        }
        let mut i: usize = 0;
        while i < n
            invariant
                i <= n,
                n == self.iters.len(),
                n == old(self).iters.len(),
                forall|k: int|
                    0 <= k < n && (#[trigger] old(self).iters@[k]).err is None ==> mcmp(
                        old(self).reversed,
                        old_keyv,
                        old(self).iters@[k].cur_key(),
                    ) != Ordering::Greater,
                cur == old(self).current,
                cur < n,
                self.reversed == old(self).reversed,
                self.current == old(self).current,
                ck@ == old_keyv,
                old_keyv == old(self).child_key(cur as int),
                old_keyv.len() >= 8,
                forall|k: int|
                    0 <= k < n ==> (#[trigger] self.iters@[k]).inv() && self.iters@[k].spec_reversed() == self.reversed && (self.iters@[k].err is None
                        ==> self.iters@[k].positioned()),
                self.ready(),
                forall|k: int|
                    0 <= k < n ==> (#[trigger] self.iters@[k]).table == old(self).iters@[k].table,
                forall|k: int|
                    i <= k < n ==> #[trigger] self.iters@[k] == old(self).iters@[k],
                self.iters@[cur as int] == old(self).iters@[cur as int],
                forall|k: int|
                    0 <= k < i && k != cur as int ==> ((#[trigger] self.iters@[k]).err is None
                        ==> mcmp(self.reversed, old_keyv, self.iters@[k].cur_key())
                        == Ordering::Less),
                forall|k: int|
                    0 <= k < i && k != cur as int ==> {
                        let before = old(self).iters@[k];
                        let after = #[trigger] self.iters@[k];
                        &&& (before.err is None && spec_same_key(old_keyv, before.cur_key()) ==> (
                        after.err is None ==> mcmp(self.reversed, before.cur_key(), after.cur_key())
                            == Ordering::Less))
                        &&& (!(before.err is None && spec_same_key(old_keyv, before.cur_key()))
                            ==> after == before)
                    },
            decreases n - i,
        {
            if i != cur {
                let mut advance = false;
                if self.iters[i].valid() {
                    if same_key(&ck, self.iters[i].key()) {
                        advance = true;
                    }
                }
                if advance {
                    proof {
                        assert(self.iters@[i as int] == old(self).iters@[i as int]);
                        crate::table::lemma_cur_key_len(&old(self).iters@[i as int]);
                        assert(0 <= (i as int) && (i as int) < old(self).n());
                        assert(old(self).iters@[i as int].err is None);
                        assert((old(self).current as int) < old(self).n());
                        assert(mcmp(
                            old(self).reversed,
                            old(self).child_key(old(self).current as int),
                            old(self).child_key(i as int),
                        ) != Ordering::Greater);
                        assert(mcmp(self.reversed, old_keyv, old(self).child_key(i as int))
                            != Ordering::Greater);
                    }
                    let child = vstd::std_specs::vec::vec_index_mut(&mut self.iters, i);
                    child.next();
                    proof {
                        if self.iters@[i as int].err is None {
                            lemma_advance_strict(
                                &old(self).iters@[i as int],
                                &self.iters@[i as int],
                                old_keyv,
                                old(self).reversed,
                            );
                            crate::format::lemma_compare_key_refl(
                                old(self).iters@[i as int].cur_key(),
                            );
                            lemma_advance_strict(
                                &old(self).iters@[i as int],
                                &self.iters@[i as int],
                                old(self).iters@[i as int].cur_key(),
                                old(self).reversed,
                            );
                        }
                    }
                } else {
                    proof {
                        assert(self.iters@[i as int] == old(self).iters@[i as int]);
                        if self.iters@[i as int].err is None {
                            let kj = self.iters@[i as int].cur_key();
                            assert(mcmp(self.reversed, old_keyv, old(self).child_key(i as int))
                                != Ordering::Greater);
                            assert(mcmp(self.reversed, old_keyv, kj) != Ordering::Greater);
                            if mcmp(self.reversed, old_keyv, kj) == Ordering::Equal {
                                if self.reversed {
                                    crate::format::lemma_compare_key_eq(kj, old_keyv);
                                } else {
                                    crate::format::lemma_compare_key_eq(old_keyv, kj);
                                }
                                assert(spec_same_key(old_keyv, kj));
                                assert(false);
                            }
                        }
                    }
                }
            }
            i = i + 1;
        }
        proof {
            crate::table::lemma_cur_key_len(&self.iters@[cur as int]);
            crate::format::lemma_compare_key_refl(old_keyv);
        }
        let child = vstd::std_specs::vec::vec_index_mut(&mut self.iters, cur);
        child.next();
        proof {
            if self.iters@[cur as int].err is None {
                lemma_advance_strict(
                    &old(self).iters@[cur as int],
                    &self.iters@[cur as int],
                    old_keyv,
                    old(self).reversed,
                );
            }
        }
        let ghost stepped = self.iters@;
        self.pick();
        proof {
            assert(self.iters@ == stepped);
            if (self.current as int) < self.n() {
                let c = self.current as int;
                assert(self.iters@[c].err is None);
                if c != cur as int {
                    assert(mcmp(self.reversed, old_keyv, self.iters@[c].cur_key())
                        == Ordering::Less);
                }
            }
        }
    }
}

/// A child whose key is at or past `k` in traversal order steps
/// strictly past `k` when it advances.
proof fn lemma_advance_strict(
    before: &TableIterator,
    after: &TableIterator,
    k: Seq<u8>,
    rev: bool,
)
    requires
        before.inv(),
        before.positioned(),
        before.err is None,
        after.table == before.table,
        after.err is None,
        after.positioned(),
        k.len() >= 8,
        mcmp(rev, k, before.cur_key()) != Ordering::Greater,
        !rev ==> pos_before(before.cur_b(), before.cur_j(), after.cur_b(), after.cur_j()),
        rev ==> pos_before(after.cur_b(), after.cur_j(), before.cur_b(), before.cur_j()),
    ensures
        mcmp(rev, k, after.cur_key()) == Ordering::Less,
{
    let t = &before.table;
    if !rev {
        crate::table::lemma_table_order(t, before.cur_b(), before.cur_j(), after.cur_b(),
            after.cur_j());
        crate::format::lemma_compare_key_trans(k, before.cur_key(), after.cur_key());
    } else {
        crate::table::lemma_table_order(t, after.cur_b(), after.cur_j(), before.cur_b(),
            before.cur_j());
        crate::format::lemma_compare_key_trans(after.cur_key(), before.cur_key(), k);
    }
}

} // verus!
