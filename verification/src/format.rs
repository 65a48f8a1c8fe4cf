//! Internal-key format and comparator.
//!
//! An internal key is a user key with an 8-byte big-endian version
//! appended. Keys order lexicographically by user key; for equal user
//! keys the larger version compares first. Keys shorter than eight bytes
//! compare by raw bytes.

use vstd::prelude::*;
use core::cmp::Ordering;

verus! {

/// Lexicographic comparison of byte sequences.
pub open spec fn lex_cmp(a: Seq<u8>, b: Seq<u8>) -> Ordering
    decreases a.len(),
{
    if a.len() == 0 && b.len() == 0 {
        Ordering::Equal
    } else if a.len() == 0 {
        Ordering::Less
    } else if b.len() == 0 {
        Ordering::Greater
    } else if a[0] < b[0] {
        Ordering::Less
    } else if a[0] > b[0] {
        Ordering::Greater
    } else {
        lex_cmp(a.skip(1), b.skip(1))
    }
}

/// The user-key part: everything before the trailing 8-byte version.
pub open spec fn spec_user_key(k: Seq<u8>) -> Seq<u8> {
    if k.len() >= 8 {
        k.take(k.len() - 8)
    } else {
        Seq::empty()
    }
}

/// Big-endian value of a byte sequence.
pub open spec fn be_value(s: Seq<u8>) -> nat
    decreases s.len(),
{
    if s.len() == 0 {
        0
    } else {
        (be_value(s.take(s.len() - 1)) * 256 + s[s.len() - 1]) as nat
    }
}

/// The `n`-byte big-endian encoding of `x % 256^n`.
pub open spec fn be_bytes(x: nat, n: nat) -> Seq<u8>
    decreases n,
{
    if n == 0 {
        Seq::empty()
    } else {
        be_bytes(x / 256, (n - 1) as nat) + seq![(x % 256) as u8]
    }
}

/// Powers of 256, to bound big-endian values.
pub open spec fn pow256(k: nat) -> nat
    decreases k,
{
    if k == 0 {
        1
    } else {
        256 * pow256((k - 1) as nat)
    }
}

/// The trailing 8-byte big-endian version, or 0 for a shorter key.
pub open spec fn spec_key_ts(k: Seq<u8>) -> u64 {
    if k.len() >= 8 {
        be_value(k.skip(k.len() - 8)) as u64
    } else {
        0
    }
}

/// Full internal-key comparison.
pub open spec fn spec_compare_key(a: Seq<u8>, b: Seq<u8>) -> Ordering {
    if a.len() >= 8 && b.len() >= 8 {
        match lex_cmp(spec_user_key(a), spec_user_key(b)) {
            Ordering::Equal => if spec_key_ts(a) > spec_key_ts(b) {
                Ordering::Less
            } else if spec_key_ts(a) < spec_key_ts(b) {
                Ordering::Greater
            } else {
                Ordering::Equal
            },
            o => o,
        }
    } else {
        lex_cmp(a, b)
    }
}

/// User-key equality, ignoring the version.
pub open spec fn spec_same_key(a: Seq<u8>, b: Seq<u8>) -> bool {
    spec_user_key(a) == spec_user_key(b)
}

pub proof fn lemma_be_bytes_len(x: nat, n: nat)
    ensures
        be_bytes(x, n).len() == n,
    decreases n,
{
    if n > 0 {
        lemma_be_bytes_len(x / 256, (n - 1) as nat);
    }
}

pub proof fn lemma_be_value_bound(s: Seq<u8>)
    ensures
        be_value(s) < pow256(s.len()),
    decreases s.len(),
{
    if s.len() > 0 {
        lemma_be_value_bound(s.take(s.len() - 1));
        assert(be_value(s) < 256 * pow256((s.len() - 1) as nat)) by (nonlinear_arith)
            requires
                be_value(s) == be_value(s.take(s.len() - 1)) * 256 + s[s.len() - 1],
                be_value(s.take(s.len() - 1)) < pow256((s.len() - 1) as nat),
                s[s.len() - 1] < 256,
        ;
    }
}

pub proof fn lemma_be_value_of_bytes(x: nat, n: nat)
    requires
        x < pow256(n),
    ensures
        be_value(be_bytes(x, n)) == x,
    decreases n,
{
    if n == 0 {
    } else {
        lemma_be_bytes_len(x / 256, (n - 1) as nat);
        assert(x / 256 < pow256((n - 1) as nat) && x % 256 + 256 * (x / 256) == x)
            by (nonlinear_arith)
            requires
                x < 256 * pow256((n - 1) as nat),
        ;
        lemma_be_value_of_bytes(x / 256, (n - 1) as nat);
        let s = be_bytes(x, n);
        assert(s.take(s.len() - 1) =~= be_bytes(x / 256, (n - 1) as nat));
        assert(s[s.len() - 1] == (x % 256) as u8);
    }
}

pub proof fn lemma_be_value_injective(s: Seq<u8>, t: Seq<u8>)
    requires
        s.len() == t.len(),
        be_value(s) == be_value(t),
    ensures
        s == t,
    decreases s.len(),
{
    if s.len() > 0 {
        let sp = s.take(s.len() - 1);
        let tp = t.take(t.len() - 1);
        assert(be_value(sp) == be_value(tp) && s[s.len() - 1] == t[t.len() - 1])
            by (nonlinear_arith)
            requires
                be_value(sp) * 256 + s[s.len() - 1] == be_value(tp) * 256 + t[t.len() - 1],
                s[s.len() - 1] < 256,
                t[t.len() - 1] < 256,
        ;
        lemma_be_value_injective(sp, tp);
        assert(s =~= sp + seq![s[s.len() - 1]]);
        assert(t =~= tp + seq![t[t.len() - 1]]);
    }
}

pub proof fn lemma_lex_refl(a: Seq<u8>)
    ensures
        lex_cmp(a, a) == Ordering::Equal,
    decreases a.len(),
{
    if a.len() > 0 {
        lemma_lex_refl(a.skip(1));
    }
}

pub proof fn lemma_lex_eq(a: Seq<u8>, b: Seq<u8>)
    requires
        lex_cmp(a, b) == Ordering::Equal,
    ensures
        a == b,
    decreases a.len(),
{
    if a.len() == 0 && b.len() == 0 {
        assert(a =~= b);
    } else {
        lemma_lex_eq(a.skip(1), b.skip(1));
        assert(a =~= seq![a[0]] + a.skip(1));
        assert(b =~= seq![b[0]] + b.skip(1));
    }
}

pub proof fn lemma_lex_antisym(a: Seq<u8>, b: Seq<u8>)
    ensures
        lex_cmp(a, b) == Ordering::Less <==> lex_cmp(b, a) == Ordering::Greater,
        lex_cmp(a, b) == Ordering::Equal <==> lex_cmp(b, a) == Ordering::Equal,
    decreases a.len(),
{
    if a.len() > 0 && b.len() > 0 && a[0] == b[0] {
        lemma_lex_antisym(a.skip(1), b.skip(1));
    }
}

/// Transitivity of the lexicographic order, in its weak and strict forms.
pub proof fn lemma_lex_trans(a: Seq<u8>, b: Seq<u8>, c: Seq<u8>)
    requires
        lex_cmp(a, b) != Ordering::Greater,
        lex_cmp(b, c) != Ordering::Greater,
    ensures
        lex_cmp(a, c) != Ordering::Greater,
        lex_cmp(a, b) == Ordering::Less || lex_cmp(b, c) == Ordering::Less ==> lex_cmp(a, c)
            == Ordering::Less,
    decreases a.len() + b.len() + c.len(),
{
    if a.len() > 0 && b.len() > 0 && c.len() > 0 && a[0] == b[0] && b[0] == c[0] {
        lemma_lex_trans(a.skip(1), b.skip(1), c.skip(1));
    }
}

/// Every key equals itself under the comparator.
pub proof fn lemma_compare_key_refl(k: Seq<u8>)
    ensures
        spec_compare_key(k, k) == Ordering::Equal,
{
    lemma_lex_refl(k);
    if k.len() >= 8 {
        lemma_lex_refl(spec_user_key(k));
    }
}

/// The comparator deems keys equal exactly when they are the same bytes.
pub proof fn lemma_compare_key_eq(a: Seq<u8>, b: Seq<u8>)
    requires
        spec_compare_key(a, b) == Ordering::Equal,
    ensures
        a == b,
{
    if a.len() >= 8 && b.len() >= 8 {
        lemma_lex_eq(spec_user_key(a), spec_user_key(b));
        let sa = a.skip(a.len() - 8);
        let sb = b.skip(b.len() - 8);
        lemma_be_value_bound(sa);
        lemma_be_value_bound(sb);
        reveal_with_fuel(pow256, 9);
        lemma_be_value_injective(sa, sb);
        assert(a =~= spec_user_key(a) + sa);
        assert(b =~= spec_user_key(b) + sb);
    } else {
        lemma_lex_eq(a, b);
    }
}

/// Swapping the arguments flips the comparator's answer.
pub proof fn lemma_compare_key_antisym(a: Seq<u8>, b: Seq<u8>)
    ensures
        spec_compare_key(a, b) == Ordering::Less <==> spec_compare_key(b, a) == Ordering::Greater,
        spec_compare_key(a, b) == Ordering::Equal <==> spec_compare_key(b, a) == Ordering::Equal,
{
    if a.len() >= 8 && b.len() >= 8 {
        lemma_lex_antisym(spec_user_key(a), spec_user_key(b));
    } else {
        lemma_lex_antisym(a, b);
    }
}

/// The comparator is transitive on internal keys (length at least 8);
/// on shorter keys it falls back to raw bytes, whose transitivity is
/// `lemma_lex_trans`.
pub proof fn lemma_compare_key_trans(a: Seq<u8>, b: Seq<u8>, c: Seq<u8>)
    requires
        a.len() >= 8,
        b.len() >= 8,
        c.len() >= 8,
        spec_compare_key(a, b) != Ordering::Greater,
        spec_compare_key(b, c) != Ordering::Greater,
    ensures
        spec_compare_key(a, c) != Ordering::Greater,
        spec_compare_key(a, b) == Ordering::Less || spec_compare_key(b, c) == Ordering::Less
            ==> spec_compare_key(a, c) == Ordering::Less,
{
    lemma_lex_trans(spec_user_key(a), spec_user_key(b), spec_user_key(c));
    if lex_cmp(spec_user_key(a), spec_user_key(b)) == Ordering::Equal {
        lemma_lex_eq(spec_user_key(a), spec_user_key(b));
    }
    if lex_cmp(spec_user_key(b), spec_user_key(c)) == Ordering::Equal {
        lemma_lex_eq(spec_user_key(b), spec_user_key(c));
    }
}

/// For one user key, the newer version compares first.
pub proof fn lemma_newer_version_first(u: Seq<u8>, v1: u64, v2: u64)
    requires
        v1 > v2,
    ensures
        spec_compare_key(u + be_bytes(v1 as nat, 8), u + be_bytes(v2 as nat, 8)) == Ordering::Less,
{
    let a = u + be_bytes(v1 as nat, 8);
    let b = u + be_bytes(v2 as nat, 8);
    lemma_be_bytes_len(v1 as nat, 8);
    lemma_be_bytes_len(v2 as nat, 8);
    assert(spec_user_key(a) =~= u);
    assert(spec_user_key(b) =~= u);
    lemma_lex_refl(u);
    reveal_with_fuel(pow256, 9);
    assert(pow256(8) == 0x1_0000_0000_0000_0000);
    lemma_be_value_of_bytes(v1 as nat, 8);
    lemma_be_value_of_bytes(v2 as nat, 8);
    assert(a.skip(a.len() - 8) =~= be_bytes(v1 as nat, 8));
    assert(b.skip(b.len() - 8) =~= be_bytes(v2 as nat, 8));
}

/// Compares `a[..alen]` with `b[..blen]` byte by byte.
fn lex_compare_prefix(a: &Vec<u8>, b: &Vec<u8>, alen: usize, blen: usize) -> (r: Ordering)
    requires
        alen <= a.len(),
        blen <= b.len(),
    ensures
        r == lex_cmp(a@.take(alen as int), b@.take(blen as int)),
{
    let mut i: usize = 0;
    proof {
        assert(a@.take(alen as int).skip(0) =~= a@.take(alen as int));
        assert(b@.take(blen as int).skip(0) =~= b@.take(blen as int));
    }
    loop
        invariant
            i <= alen <= a.len(),
            i <= blen <= b.len(),
            lex_cmp(a@.take(alen as int), b@.take(blen as int)) == lex_cmp(
                a@.take(alen as int).skip(i as int),
                b@.take(blen as int).skip(i as int),
            ),
        decreases alen - i,
    {
        let ghost sa = a@.take(alen as int).skip(i as int);
        let ghost sb = b@.take(blen as int).skip(i as int);
        if i >= alen {
            if i >= blen {
                return Ordering::Equal;
            }
            return Ordering::Less;
        }
        if i >= blen {
            return Ordering::Greater;
        }
        let x = a[i];
        let y = b[i];
        proof {
            assert(sa[0] == a@[i as int]);
            assert(sb[0] == b@[i as int]);
        }
        if x < y {
            return Ordering::Less;
        }
        if x > y {
            return Ordering::Greater;
        }
        proof {
            assert(sa.skip(1) =~= a@.take(alen as int).skip(i + 1));
            assert(sb.skip(1) =~= b@.take(blen as int).skip(i + 1));
        }
        i = i + 1;
    }
}

/// Orders two internal keys: lexicographic by user key, then larger
/// version first; keys shorter than eight bytes compare by raw bytes.
pub fn compare_key(a: &Vec<u8>, b: &Vec<u8>) -> (r: Ordering)
    ensures
        r == spec_compare_key(a@, b@),
{
    if a.len() >= 8 && b.len() >= 8 {
        proof {
            assert(a@.take(a@.len() - 8) == spec_user_key(a@));
            assert(b@.take(b@.len() - 8) == spec_user_key(b@));
        }
        let c = lex_compare_prefix(a, b, a.len() - 8, b.len() - 8);
        match c {
            Ordering::Equal => {
                let ta = get_ts(a);
                let tb = get_ts(b);
                if ta > tb {
                    Ordering::Less
                } else if ta < tb {
                    Ordering::Greater
                } else {
                    Ordering::Equal
                }
            },
            o => o,
        }
    } else {
        proof {
            assert(a@.take(a@.len() as int) == a@);
            assert(b@.take(b@.len() as int) == b@);
        }
        lex_compare_prefix(a, b, a.len(), b.len())
    }
}

/// Whether two internal keys share their user key, ignoring versions.
pub fn same_key(a: &Vec<u8>, b: &Vec<u8>) -> (r: bool)
    ensures
        r == spec_same_key(a@, b@),
{
    let ua: usize = if a.len() >= 8 {
        a.len() - 8
    } else {
        0
    };
    let ub: usize = if b.len() >= 8 {
        b.len() - 8
    } else {
        0
    };
    if ua != ub {
        proof {
            assert(spec_user_key(a@).len() == ua);
            assert(spec_user_key(b@).len() == ub);
        }
        return false;
    }
    let mut i: usize = 0;
    while i < ua
        invariant
            i <= ua,
            ua == ub,
            ua <= a.len(),
            ub <= b.len(),
            a.len() >= 8 || ua == 0,
            b.len() >= 8 || ub == 0,
            ua == spec_user_key(a@).len(),
            ub == spec_user_key(b@).len(),
            forall|j: int| 0 <= j < i ==> a@[j] == b@[j],
        decreases ua - i,
    {
        if a[i] != b[i] {
            proof {
                assert(spec_user_key(a@)[i as int] == a@[i as int]);
                assert(spec_user_key(b@)[i as int] == b@[i as int]);
            }
            return false;
        }
        i = i + 1;
    }
    proof {
        assert(spec_user_key(a@) =~= spec_user_key(b@));
    }
    true
}

/// The trailing 8-byte big-endian version of `key`, or 0 when `key` is
/// shorter than eight bytes.
pub fn get_ts(key: &Vec<u8>) -> (r: u64)
    ensures
        r == spec_key_ts(key@),
{
    if key.len() < 8 {
        return 0;
    }
    let start = key.len() - 8;
    let ghost s = key@.skip(start as int);
    let mut acc: u64 = 0;
    let mut i: usize = 0;
    while i < 8
        invariant
            0 <= i <= 8,
            start == key.len() - 8,
            key.len() >= 8,
            s == key@.skip(start as int),
            acc == be_value(s.take(i as int)),
            acc < pow256(i as nat),
        decreases 8 - i,
    {
        let b = key[start + i];
        proof {
            reveal_with_fuel(pow256, 9);
            assert(s.take(i + 1).take(i as int) =~= s.take(i as int));
            assert(s.take(i + 1)[i as int] == b);
            assert(acc * 256 + b < 256 * pow256(i as nat)) by (nonlinear_arith)
                requires
                    acc < pow256(i as nat),
                    b < 256,
            ;
        }
        acc = acc * 256 + (b as u64);
        i = i + 1;
    }
    proof {
        assert(s.take(8) =~= s);
        reveal_with_fuel(pow256, 9);
        lemma_be_value_bound(s);
    }
    acc
}

/// Appends the 8-byte big-endian version to a user key, forming the
/// internal key.
pub fn key_with_ts(key: &Vec<u8>, ts: u64) -> (r: Vec<u8>)
    requires
        key.len() + 8 <= usize::MAX,
    ensures
        r@ == key@ + be_bytes(ts as nat, 8),
        r@.len() == key@.len() + 8,
        spec_user_key(r@) == key@,
        spec_key_ts(r@) == ts,
{
    let mut r = key.clone();
    push_be_bytes(&mut r, ts, 8);
    proof {
        lemma_be_bytes_len(ts as nat, 8);
        assert(spec_user_key(r@) =~= key@);
        assert(r@.skip(r@.len() - 8) =~= be_bytes(ts as nat, 8));
        reveal_with_fuel(pow256, 9);
        assert(pow256(8) == 0x1_0000_0000_0000_0000);
        lemma_be_value_of_bytes(ts as nat, 8);
    }
    r
}

/// Appends the `n`-byte big-endian encoding of `x` to `buf`.
fn push_be_bytes(buf: &mut Vec<u8>, x: u64, n: usize)
    requires
        old(buf).len() + n <= usize::MAX,
        n <= 8,
    ensures
        final(buf)@ == old(buf)@ + be_bytes(x as nat, n as nat),
    decreases n,
{
    if n == 0 {
        proof {
            assert(final(buf)@ =~= old(buf)@ + be_bytes(x as nat, 0));
        }
        return;
    }
    push_be_bytes(buf, x / 256, n - 1);
    buf.push((x % 256) as u8);
    proof {
        assert(final(buf)@ =~= old(buf)@ + be_bytes(x as nat, n as nat));
    }
}

} // verus!
