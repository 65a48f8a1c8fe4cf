//! Binary codec: variable-length integers in the protobuf wire form.
//!
//! A value is encoded least-significant group first, seven bits per byte,
//! with the high bit of every byte but the last set. The decoder accepts
//! exactly the canonical encodings of values that fit in 64 bits.

use vstd::prelude::*;

verus! {

/// The canonical varint encoding of `x`.
pub open spec fn spec_varint(x: nat) -> Seq<u8>
    decreases x,
{
    if x < 128 {
        seq![x as u8]
    } else {
        seq![(x % 128 + 128) as u8] + spec_varint(x / 128)
    }
}

/// Number of bytes in the canonical varint encoding of `x`.
pub open spec fn spec_varint_len(x: nat) -> nat
    decreases x,
{
    if x < 128 {
        1
    } else {
        1 + spec_varint_len(x / 128)
    }
}

/// One decoding step: the value and the number of bytes consumed, or
/// `None` when `s` does not begin with the canonical encoding of a value
/// that fits in 64 bits.
pub open spec fn spec_dec_varint(s: Seq<u8>) -> Option<(u64, nat)>
    decreases s.len(),
{
    if s.len() == 0 {
        None
    } else {
        let b = s[0];
        if b < 128 {
            Some((b as u64, 1))
        } else {
            match spec_dec_varint(s.skip(1)) {
                None => None,
                Some((hi, n)) => {
                    if hi == 0 {
                        None
                    } else if (b - 128) + 128 * (hi as int) <= u64::MAX {
                        Some(((b - 128 + 128 * (hi as int)) as u64, n + 1))
                    } else {
                        None
                    }
                },
            }
        }
    }
}

/// The encoding has `spec_varint_len(x)` bytes; every byte but the last
/// has its high bit set, the last does not, and when the encoding is
/// longer than one byte its last byte is not zero.
pub proof fn lemma_varint_shape(x: nat)
    ensures
        spec_varint(x).len() == spec_varint_len(x),
        spec_varint_len(x) >= 1,
        forall|i: int| 0 <= i < spec_varint_len(x) - 1 ==> spec_varint(x)[i] >= 128,
        spec_varint(x)[spec_varint_len(x) - 1] < 128,
        spec_varint_len(x) > 1 ==> spec_varint(x)[spec_varint_len(x) - 1] != 0,
    decreases x,
{
    if x < 128 {
    } else {
        lemma_varint_shape(x / 128);
        assert(spec_varint(x) == seq![(x % 128 + 128) as u8] + spec_varint(x / 128));
        assert(forall|i: int| 0 <= i < spec_varint(x / 128).len() ==> #[trigger] spec_varint(x)[i
            + 1] == spec_varint(x / 128)[i]);
    }
}

/// Powers of 128, to bound encoding lengths.
pub open spec fn pow128(k: nat) -> nat
    decreases k,
{
    if k == 0 {
        1
    } else {
        128 * pow128((k - 1) as nat)
    }
}

pub proof fn lemma_varint_len_le(x: nat, k: nat)
    requires
        k >= 1,
        x < pow128(k),
    ensures
        spec_varint_len(x) <= k,
    decreases k,
{
    if x < 128 {
    } else {
        reveal_with_fuel(pow128, 2);
        assert(pow128(1) == 128);
        assert(k >= 2);
        assert(x / 128 < pow128((k - 1) as nat)) by (nonlinear_arith)
            requires
                x < 128 * pow128((k - 1) as nat),
        ;
        lemma_varint_len_le(x / 128, (k - 1) as nat);
    }
}

/// A 64-bit value encodes in at most ten bytes.
pub proof fn lemma_varint_len_u64(x: nat)
    requires
        x <= u64::MAX,
    ensures
        spec_varint_len(x) <= 10,
{
    reveal_with_fuel(pow128, 11);
    assert(pow128(10) > u64::MAX as nat);
    lemma_varint_len_le(x, 10);
}

/// Decoding the canonical encoding of `x`, with anything after it,
/// yields `x` and consumes exactly the encoding.
pub proof fn lemma_dec_of_enc(x: nat, rest: Seq<u8>)
    requires
        x <= u64::MAX,
    ensures
        spec_dec_varint(spec_varint(x) + rest) == Some((x as u64, spec_varint_len(x))),
    decreases x,
{
    let s = spec_varint(x) + rest;
    if x < 128 {
        assert(s[0] == x as u8);
    } else {
        lemma_dec_of_enc(x / 128, rest);
        assert(s[0] == (x % 128 + 128) as u8);
        assert(s.skip(1) =~= spec_varint(x / 128) + rest);
        assert(x / 128 >= 1);
        assert((s[0] - 128) + 128 * ((x / 128) as u64 as int) == x) by {
            assert(x % 128 + 128 * (x / 128) == x) by (nonlinear_arith);
        };
    }
}

/// A successful decode consumed exactly a canonical encoding.
pub proof fn lemma_dec_sound(s: Seq<u8>)
    requires
        spec_dec_varint(s) is Some,
    ensures
        ({
            let (x, n) = spec_dec_varint(s)->Some_0;
            &&& 1 <= n <= s.len()
            &&& n == spec_varint_len(x as nat)
            &&& s.subrange(0, n as int) == spec_varint(x as nat)
        }),
    decreases s.len(),
{
    let (x, n) = spec_dec_varint(s)->Some_0;
    let b = s[0];
    if b < 128 {
        assert(s.subrange(0, 1) =~= seq![b]);
    } else {
        lemma_dec_sound(s.skip(1));
        let (hi, m) = spec_dec_varint(s.skip(1))->Some_0;
        assert(x == b - 128 + 128 * (hi as int));
        assert(x as nat >= 128 && x as nat % 128 == (b - 128) as nat && x as nat / 128
            == hi as nat) by (nonlinear_arith)
            requires
                x == b - 128 + 128 * (hi as int),
                hi >= 1,
                128 <= b <= 255,
        ;
        assert(s.skip(1).subrange(0, m as int) == spec_varint(hi as nat));
        assert(s.subrange(0, n as int) =~= seq![b] + s.skip(1).subrange(0, m as int));
        assert(spec_varint(x as nat) == seq![(x as nat % 128 + 128) as u8] + spec_varint(
            x as nat / 128,
        ));
    }
}

/// Cutting strictly inside a varint leaves bytes that decode as nothing.
pub proof fn lemma_dec_of_cut(x: nat, s: Seq<u8>)
    requires
        x <= u64::MAX,
        s.len() < spec_varint_len(x),
        s == spec_varint(x).take(s.len() as int),
    ensures
        spec_dec_varint(s) is None,
{
    lemma_varint_shape(x);
    if spec_dec_varint(s) is Some {
        let (y, m) = spec_dec_varint(s)->Some_0;
        lemma_dec_sound(s);
        lemma_varint_shape(y as nat);
        assert(s[m - 1] == spec_varint(y as nat)[m - 1]);
        assert(s[m - 1] == spec_varint(x)[m - 1]);
        assert(false);
    }
}

/// Number of bytes `encode_varint_u64` appends for `x`.
pub fn varint_u64_bytes_len(x: u64) -> (r: usize)
    ensures
        r == spec_varint_len(x as nat),
{
    proof {
        lemma_varint_len_u64(x as nat);
    }
    let mut v: u64 = x;
    let mut n: usize = 1;
    while v >= 128
        invariant
            n >= 1,
            n + spec_varint_len(v as nat) == 1 + spec_varint_len(x as nat),
            spec_varint_len(x as nat) <= 10,
            spec_varint_len(v as nat) >= 1,
        decreases v,
    {
        v = v / 128;
        n = n + 1;
    }
    n
}

/// Number of bytes `encode_varint_u32` appends for `x`.
pub fn varint_u32_bytes_len(x: u32) -> (r: usize)
    ensures
        r == spec_varint_len(x as nat),
{
    varint_u64_bytes_len(x as u64)
}

/// Appends the canonical varint encoding of `x` to `buf`.
pub fn encode_varint_u64(buf: &mut Vec<u8>, x: u64)
    requires
        old(buf).len() + spec_varint_len(x as nat) <= usize::MAX,
    ensures
        final(buf)@ == old(buf)@ + spec_varint(x as nat),
{
    let mut v: u64 = x;
    while v >= 128
        invariant
            old(buf)@ + spec_varint(x as nat) == buf@ + spec_varint(v as nat),
            buf.len() + spec_varint_len(v as nat) <= usize::MAX,
        decreases v,
    {
        proof {
            assert(spec_varint(v as nat) == seq![(v as nat % 128 + 128) as u8] + spec_varint(
                v as nat / 128,
            ));
        }
        buf.push((v % 128 + 128) as u8);
        v = v / 128;
        proof {
            assert(old(buf)@ + spec_varint(x as nat) =~= buf@ + spec_varint(v as nat));
        }
    }
    buf.push(v as u8);
    proof {
        assert(spec_varint(v as nat) =~= seq![v as u8]);
        assert(final(buf)@ =~= old(buf)@ + spec_varint(x as nat));
    }
}

/// Appends the canonical varint encoding of `x` to `buf`.
pub fn encode_varint_u32(buf: &mut Vec<u8>, x: u32)
    requires
        old(buf).len() + spec_varint_len(x as nat) <= usize::MAX,
    ensures
        final(buf)@ == old(buf)@ + spec_varint(x as nat),
{
    encode_varint_u64(buf, x as u64);
}

/// Decodes a varint from `data` starting at `offset`; returns the value
/// and the offset just past it, or `None` when no canonical encoding of
/// a 64-bit value starts there.
pub fn decode_varint_u64(data: &Vec<u8>, offset: usize) -> (r: Option<(u64, usize)>)
    requires
        offset <= data.len(),
    ensures
        ({
            let d = spec_dec_varint(data@.skip(offset as int));
            match d {
                Some(p) => r matches Some(q) && q.0 == p.0 && q.1 == offset + p.1,
                None => r is None,
            }
        }),
    decreases data.len() - offset,
{
    if offset >= data.len() {
        return None;
    }
    let b = data[offset];
    proof {
        assert(data@.skip(offset as int)[0] == b);
    }
    if b < 128 {
        return Some((b as u64, offset + 1));
    }
    proof {
        assert(data@.skip(offset as int).skip(1) =~= data@.skip(offset as int + 1));
        if spec_dec_varint(data@.skip(offset as int + 1)) is Some {
            lemma_dec_sound(data@.skip(offset as int + 1));
        }
    }
    match decode_varint_u64(data, offset + 1) {
        None => None,
        Some((hi, end)) => {
            if hi == 0 {
                return None;
            }
            let lo = (b - 128) as u64;
            match hi.checked_mul(128) {
                None => None,
                Some(m) => match m.checked_add(lo) {
                    None => None,
                    Some(v) => Some((v, end)),
                },
            }
        },
    }
}

/// Decodes a varint that must fit in 32 bits; values beyond that range
/// are rejected as no decoding.
pub fn decode_varint_u32(data: &Vec<u8>, offset: usize) -> (r: Option<(u32, usize)>)
    requires
        offset <= data.len(),
    ensures
        ({
            let d = spec_dec_varint(data@.skip(offset as int));
            match d {
                Some(p) => if p.0 <= u32::MAX {
                    r matches Some(q) && q.0 == p.0 && q.1 == offset + p.1
                } else {
                    r is None
                },
                None => r is None,
            }
        }),
{
    match decode_varint_u64(data, offset) {
        None => None,
        Some((v, end)) => {
            if v <= 0xffff_ffffu64 {
                Some((v as u32, end))
            } else {
                None
            }
        },
    }
}

} // verus!
