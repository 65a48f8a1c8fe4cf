//! Write-ahead log: entry framing over a mapped byte image, bootstrap
//! zeroing, truncation bookkeeping, and forward iteration that treats a
//! torn tail as a clean end of log.
//!
//! The log logic works on the byte image itself; opening, mapping,
//! flushing and truncating the backing file happen outside the library.

use vstd::prelude::*;
use crate::codec::{
    decode_varint_u32, decode_varint_u64, encode_varint_u32, encode_varint_u64, lemma_dec_of_cut,
    lemma_dec_of_enc, lemma_dec_sound, lemma_varint_len_u64, lemma_varint_shape, spec_dec_varint,
    spec_varint, spec_varint_len, varint_u32_bytes_len, varint_u64_bytes_len,
};
use crate::error::Error;
use crate::value::{entry_model_wf, spec_is_zero, Entry, EntryModel, ValuePointer};
use crate::AgateOptions;

verus! {

/// Upper bound used for the zero sentinel region after the last entry.
pub const MAX_HEADER_SIZE: usize = 21;

/// Metadata of an entry as persisted in the WAL and the value log:
/// `meta(1) ‖ user_meta(1) ‖ varint(key_len) ‖ varint(value_len) ‖
/// varint(expires_at)`.
#[derive(Debug, Clone, Copy, PartialEq, Eq, Structural)]
pub struct Header {
    /// Length of the key.
    pub key_len: u32,
    /// Length of the value.
    pub value_len: u32,
    /// Entry expiry date.
    pub expires_at: u64,
    /// Metadata.
    pub meta: u8,
    /// User-provided metadata.
    pub user_meta: u8,
}

impl Default for Header {
    fn default() -> (r: Self)
        ensures
            r.key_len == 0,
            r.value_len == 0,
            r.expires_at == 0,
            r.meta == 0,
            r.user_meta == 0,
    {
        Header { key_len: 0, value_len: 0, expires_at: 0, meta: 0, user_meta: 0 }
    }
}

/// The wire form of a header.
pub open spec fn spec_header_enc(h: Header) -> Seq<u8> {
    seq![h.meta, h.user_meta] + spec_varint(h.key_len as nat) + spec_varint(h.value_len as nat)
        + spec_varint(h.expires_at as nat)
}

/// Number of bytes in the wire form of a header.
pub open spec fn spec_header_len(h: Header) -> nat {
    (2 + spec_varint_len(h.key_len as nat) + spec_varint_len(h.value_len as nat)
        + spec_varint_len(h.expires_at as nat)) as nat
}

/// One header parse: the header and the bytes consumed, or `None` when
/// `s` is at most two bytes or a varint is malformed or out of range.
pub open spec fn spec_dec_header(s: Seq<u8>) -> Option<(Header, nat)> {
    if s.len() <= 2 {
        None
    } else {
        match spec_dec_varint(s.skip(2)) {
            None => None,
            Some((kl, n1)) => if kl > u32::MAX {
                None
            } else {
                match spec_dec_varint(s.skip(2 + n1 as int)) {
                    None => None,
                    Some((vl, n2)) => if vl > u32::MAX {
                        None
                    } else {
                        match spec_dec_varint(s.skip(2 + n1 as int + n2 as int)) {
                            None => None,
                            Some((ex, n3)) => Some(
                                (
                                    Header {
                                        key_len: kl as u32,
                                        value_len: vl as u32,
                                        expires_at: ex,
                                        meta: s[0],
                                        user_meta: s[1],
                                    },
                                    (2 + n1 + n2 + n3) as nat,
                                ),
                            ),
                        }
                    },
                }
            },
        }
    }
}

/// Parsing an encoded header, with anything after it, recovers it.
pub proof fn lemma_dec_header_of_enc(h: Header, rest: Seq<u8>)
    ensures
        spec_dec_header(spec_header_enc(h) + rest) == Some((h, spec_header_len(h))),
        spec_header_len(h) >= 5,
{
    let e1 = spec_varint(h.key_len as nat);
    let e2 = spec_varint(h.value_len as nat);
    let e3 = spec_varint(h.expires_at as nat);
    let n1 = spec_varint_len(h.key_len as nat);
    let n2 = spec_varint_len(h.value_len as nat);
    let n3 = spec_varint_len(h.expires_at as nat);
    lemma_varint_shape(h.key_len as nat);
    lemma_varint_shape(h.value_len as nat);
    lemma_varint_shape(h.expires_at as nat);
    let s = spec_header_enc(h) + rest;
    assert(s.skip(2) =~= e1 + (e2 + (e3 + rest)));
    lemma_dec_of_enc(h.key_len as nat, e2 + (e3 + rest));
    assert(s.skip(2 + n1 as int) =~= e2 + (e3 + rest));
    lemma_dec_of_enc(h.value_len as nat, e3 + rest);
    assert(s.skip(2 + n1 as int + n2 as int) =~= e3 + rest);
    lemma_dec_of_enc(h.expires_at as nat, rest);
    assert(s[0] == h.meta);
    assert(s[1] == h.user_meta);
}

/// A successful header parse consumed exactly a header encoding.
pub proof fn lemma_dec_header_sound(s: Seq<u8>)
    requires
        spec_dec_header(s) is Some,
    ensures
        ({
            let (h, n) = spec_dec_header(s)->Some_0;
            &&& 5 <= n <= s.len()
            &&& n == spec_header_len(h)
            &&& s.subrange(0, n as int) == spec_header_enc(h)
        }),
{
    let (h, n) = spec_dec_header(s)->Some_0;
    let (kl, n1) = spec_dec_varint(s.skip(2))->Some_0;
    lemma_dec_sound(s.skip(2));
    let (vl, n2) = spec_dec_varint(s.skip(2 + n1 as int))->Some_0;
    lemma_dec_sound(s.skip(2 + n1 as int));
    let (ex, n3) = spec_dec_varint(s.skip(2 + n1 as int + n2 as int))->Some_0;
    lemma_dec_sound(s.skip(2 + n1 as int + n2 as int));
    assert(s.skip(2).subrange(0, n1 as int) == spec_varint(kl as nat));
    assert(s.skip(2 + n1 as int).subrange(0, n2 as int) == spec_varint(vl as nat));
    assert(s.skip(2 + n1 as int + n2 as int).subrange(0, n3 as int) == spec_varint(ex as nat));
    assert(s.subrange(0, n as int) =~= seq![s[0], s[1]] + s.skip(2).subrange(0, n1 as int)
        + s.skip(2 + n1 as int).subrange(0, n2 as int) + s.skip(2 + n1 as int + n2 as int).subrange(
        0,
        n3 as int,
    ));
}

/// Cutting strictly inside a header encoding leaves bytes that parse as
/// no header.
pub proof fn lemma_dec_header_of_cut(h: Header, c: nat)
    requires
        c < spec_header_len(h),
    ensures
        spec_dec_header(spec_header_enc(h).take(c as int)) is None,
{
    let full = spec_header_enc(h);
    let s = full.take(c as int);
    let e1 = spec_varint(h.key_len as nat);
    let e2 = spec_varint(h.value_len as nat);
    let e3 = spec_varint(h.expires_at as nat);
    let n1 = spec_varint_len(h.key_len as nat);
    let n2 = spec_varint_len(h.value_len as nat);
    let n3 = spec_varint_len(h.expires_at as nat);
    lemma_varint_shape(h.key_len as nat);
    lemma_varint_shape(h.value_len as nat);
    lemma_varint_shape(h.expires_at as nat);
    if c <= 2 {
    } else if c < 2 + n1 {
        assert(s.skip(2) =~= e1.take(c - 2));
        lemma_dec_of_cut(h.key_len as nat, e1.take(c - 2));
    } else {
        assert(s.skip(2) =~= e1 + (e2 + e3).take(c - 2 - n1));
        lemma_dec_of_enc(h.key_len as nat, (e2 + e3).take(c - 2 - n1));
        if c < 2 + n1 + n2 {
            assert(s.skip(2 + n1 as int) =~= e2.take(c - 2 - n1));
            lemma_dec_of_cut(h.value_len as nat, e2.take(c - 2 - n1));
        } else {
            assert(s.skip(2 + n1 as int) =~= e2 + e3.take(c - 2 - n1 - n2));
            lemma_dec_of_enc(h.value_len as nat, e3.take(c - 2 - n1 - n2));
            assert(s.skip(2 + n1 as int + n2 as int) =~= e3.take(c - 2 - n1 - n2));
            assert(c - 2 - n1 - n2 < n3);
            lemma_dec_of_cut(h.expires_at as nat, e3.take(c - 2 - n1 - n2));
        }
    }
}

impl Header {
    /// Length of this header once encoded.
    pub fn encoded_len(&self) -> (r: usize)
        ensures
            r == spec_header_len(*self),
    {
        proof {
            lemma_varint_len_u64(self.key_len as nat);
            lemma_varint_len_u64(self.value_len as nat);
            lemma_varint_len_u64(self.expires_at as nat);
        }
        let a = varint_u32_bytes_len(self.key_len);
        let b = varint_u32_bytes_len(self.value_len);
        let c = varint_u64_bytes_len(self.expires_at);
        1 + 1 + a + b + c
    }

    /// Appends the wire form of this header to `bytes`.
    pub fn encode(&self, bytes: &mut Vec<u8>)
        requires
            old(bytes).len() + 32 <= usize::MAX,
        ensures
            final(bytes)@ == old(bytes)@ + spec_header_enc(*self),
            final(bytes).len() == old(bytes).len() + spec_header_len(*self),
    {
        proof {
            lemma_varint_len_u64(self.key_len as nat);
            lemma_varint_len_u64(self.value_len as nat);
            lemma_varint_len_u64(self.expires_at as nat);
            lemma_varint_shape(self.key_len as nat);
            lemma_varint_shape(self.value_len as nat);
            lemma_varint_shape(self.expires_at as nat);
        }
        bytes.push(self.meta);
        bytes.push(self.user_meta);
        encode_varint_u32(bytes, self.key_len);
        encode_varint_u32(bytes, self.value_len);
        encode_varint_u64(bytes, self.expires_at);
        proof {
            assert(final(bytes)@ =~= old(bytes)@ + spec_header_enc(*self));
        }
    }

    /// Reads a header from `data` starting at `offset`; the result also
    /// carries the offset just past the header. Fails with `VarDecode`
    /// when fewer than three bytes remain and with `Decode` when a
    /// varint is malformed or out of range.
    pub fn decode(data: &Vec<u8>, offset: usize) -> (r: Result<(Header, usize), Error>)
        requires
            offset <= data.len(),
        ensures
            ({
                let d = spec_dec_header(data@.skip(offset as int));
                match d {
                    Some(p) => r matches Ok(q) && q.0 == p.0 && q.1 == offset + p.1,
                    None => {
                        &&& r is Err
                        &&& (r matches Err(Error::VarDecode(_)) || r matches Err(
                            Error::Decode(_),
                        ))
                        &&& data@.len() - offset <= 2 ==> r matches Err(Error::VarDecode(_))
                    },
                }
            }),
    {
        let ghost s = data@.skip(offset as int);
        if data.len() - offset <= 2 {
            return Err(Error::VarDecode("should be at least 2 bytes"));
        }
        let meta = data[offset];
        let user_meta = data[offset + 1];
        proof {
            assert(s[0] == meta);
            assert(s[1] == user_meta);
            assert(s.skip(2) =~= data@.skip(offset + 2));
        }
        let (key_len, o1) = match decode_varint_u32(data, offset + 2) {
            None => {
                return Err(Error::Decode("invalid varint"));
            },
            Some(p) => p,
        };
        proof {
            lemma_dec_sound(data@.skip(offset + 2));
            assert(s.skip(2 + (o1 - offset - 2) as int) =~= data@.skip(o1 as int));
        }
        let (value_len, o2) = match decode_varint_u32(data, o1) {
            None => {
                return Err(Error::Decode("invalid varint"));
            },
            Some(p) => p,
        };
        proof {
            lemma_dec_sound(data@.skip(o1 as int));
            assert(s.skip(2 + (o1 - offset - 2) as int + (o2 - o1) as int) =~= data@.skip(
                o2 as int,
            ));
        }
        let (expires_at, o3) = match decode_varint_u64(data, o2) {
            None => {
                return Err(Error::Decode("invalid varint"));
            },
            Some(p) => p,
        };
        Ok((Header { key_len, value_len, expires_at, meta, user_meta }, o3))
    }
}

/// The header an entry persists.
pub open spec fn spec_entry_header(e: EntryModel) -> Header {
    Header {
        key_len: e.key.len() as u32,
        value_len: e.value.len() as u32,
        expires_at: e.expires_at,
        meta: e.meta,
        user_meta: e.user_meta,
    }
}

/// The full wire form of an entry: header, key bytes, value bytes.
pub open spec fn spec_entry_enc(e: EntryModel) -> Seq<u8> {
    spec_header_enc(spec_entry_header(e)) + e.key + e.value
}

/// Number of bytes in the wire form of an entry.
pub open spec fn spec_entry_enc_len(e: EntryModel) -> nat {
    (spec_header_len(spec_entry_header(e)) + e.key.len() + e.value.len()) as nat
}

/// One entry parse. `None` models every clean end of log: too few
/// bytes, a malformed varint, key or value bytes cut off, or the zero
/// sentinel.
pub open spec fn spec_next_entry(s: Seq<u8>) -> Option<(EntryModel, nat)> {
    match spec_dec_header(s) {
        None => None,
        Some((h, hl)) => {
            if hl + h.key_len + h.value_len > s.len() {
                None
            } else {
                let e = EntryModel {
                    key: s.subrange(hl as int, hl as int + h.key_len as int),
                    value: s.subrange(
                        hl as int + h.key_len as int,
                        hl as int + h.key_len as int + h.value_len as int,
                    ),
                    expires_at: h.expires_at,
                    user_meta: h.user_meta,
                    meta: h.meta,
                };
                if spec_is_zero(e) {
                    None
                } else {
                    Some((e, (hl + h.key_len + h.value_len) as nat))
                }
            }
        },
    }
}

/// All entries a forward iteration of `s` yields.
pub open spec fn spec_wal_stream(s: Seq<u8>) -> Seq<EntryModel>
    decreases s.len(),
{
    match spec_next_entry(s) {
        None => Seq::empty(),
        Some((e, n)) => if 1 <= n <= s.len() {
            seq![e] + spec_wal_stream(s.skip(n as int))
        } else {
            seq![e]
        },
    }
}

/// The concatenated wire form of a sequence of entries.
pub open spec fn concat_enc(es: Seq<EntryModel>) -> Seq<u8>
    decreases es.len(),
{
    if es.len() == 0 {
        Seq::empty()
    } else {
        spec_entry_enc(es[0]) + concat_enc(es.skip(1))
    }
}

/// Entries whose lengths fit the header fields and that are not the
/// zero sentinel.
pub open spec fn entries_wf(es: Seq<EntryModel>) -> bool {
    forall|i: int|
        0 <= i < es.len() ==> entry_model_wf(#[trigger] es[i]) && !spec_is_zero(es[i])
}

/// Parsing an encoded entry, with anything after it, recovers it.
pub proof fn lemma_next_entry_of_enc(e: EntryModel, rest: Seq<u8>)
    requires
        entry_model_wf(e),
        !spec_is_zero(e),
    ensures
        spec_next_entry(spec_entry_enc(e) + rest) == Some((e, spec_entry_enc_len(e))),
        spec_entry_enc_len(e) >= 5,
        spec_entry_enc(e).len() == spec_entry_enc_len(e),
{
    let h = spec_entry_header(e);
    let s = spec_entry_enc(e) + rest;
    let hl = spec_header_len(h);
    lemma_varint_shape(h.key_len as nat);
    lemma_varint_shape(h.value_len as nat);
    lemma_varint_shape(h.expires_at as nat);
    assert(spec_header_enc(h).len() == hl);
    assert(s =~= spec_header_enc(h) + (e.key + e.value + rest));
    lemma_dec_header_of_enc(h, e.key + e.value + rest);
    assert(spec_dec_header(s) == Some((h, hl)));
    assert(s.subrange(hl as int, hl as int + h.key_len as int) =~= e.key);
    assert(s.subrange(
        hl as int + h.key_len as int,
        hl as int + h.key_len as int + h.value_len as int,
    ) =~= e.value);
}

/// Five zero bytes parse as the zero sentinel: a clean end of log.
pub proof fn lemma_next_entry_zeros(s: Seq<u8>)
    requires
        s.len() >= 5,
        forall|i: int| 0 <= i < 5 ==> s[i] == 0,
    ensures
        spec_next_entry(s) is None,
{
    assert(s.skip(2)[0] == 0);
    assert(spec_dec_varint(s.skip(2)) == Some((0u64, 1nat)));
    assert(s.skip(3)[0] == 0);
    assert(s.skip(2).skip(1) =~= s.skip(3));
    assert(spec_dec_varint(s.skip(3)) == Some((0u64, 1nat)));
    assert(s.skip(4)[0] == 0);
    assert(spec_dec_varint(s.skip(4)) == Some((0u64, 1nat)));
    let d = spec_dec_header(s);
    assert(d is Some);
    let (h, hl) = d->Some_0;
    assert(h.key_len == 0 && h.value_len == 0 && h.meta == 0 && h.user_meta == 0 && hl == 5);
}

/// Appending one entry appends its wire form.
pub proof fn lemma_concat_push(es: Seq<EntryModel>, e: EntryModel)
    ensures
        concat_enc(es.push(e)) == concat_enc(es) + spec_entry_enc(e),
    decreases es.len(),
{
    if es.len() == 0 {
        assert(es.push(e)[0] == e);
        assert(es.push(e).skip(1) =~= Seq::<EntryModel>::empty());
        assert(concat_enc(es.push(e).skip(1)) =~= Seq::<u8>::empty());
        assert(concat_enc(es) =~= Seq::<u8>::empty());
        assert(concat_enc(es.push(e)) =~= concat_enc(es) + spec_entry_enc(e));
    } else {
        assert(es.push(e).skip(1) =~= es.skip(1).push(e));
        lemma_concat_push(es.skip(1), e);
        assert(es.push(e)[0] == es[0]);
        assert(concat_enc(es.push(e)) =~= concat_enc(es) + spec_entry_enc(e));
    }
}

/// Iterating the concatenated wire form of well-formed entries,
/// followed by anything that parses as an end of log, yields exactly
/// those entries.
pub proof fn lemma_stream_of_concat(es: Seq<EntryModel>, tail: Seq<u8>)
    requires
        entries_wf(es),
        spec_next_entry(tail) is None,
    ensures
        spec_wal_stream(concat_enc(es) + tail) == es,
    decreases es.len(),
{
    if es.len() == 0 {
        assert(concat_enc(es) + tail =~= tail);
        assert(spec_wal_stream(tail) =~= Seq::<EntryModel>::empty());
        assert(Seq::<EntryModel>::empty() =~= es);
    } else {
        let e = es[0];
        let s = concat_enc(es) + tail;
        let rest = concat_enc(es.skip(1)) + tail;
        assert(s =~= spec_entry_enc(e) + rest);
        lemma_next_entry_of_enc(e, rest);
        let n = spec_entry_enc_len(e);
        assert(s.skip(n as int) =~= rest);
        assert(entries_wf(es.skip(1))) by {
            assert(forall|i: int|
                0 <= i < es.skip(1).len() ==> #[trigger] es.skip(1)[i] == es[i + 1]);
        };
        lemma_stream_of_concat(es.skip(1), tail);
        assert(spec_wal_stream(s) =~= seq![e] + es.skip(1));
        assert(seq![e] + es.skip(1) =~= es);
    }
}

/// How many entries of `es` are wholly contained in the first `p`
/// bytes of their concatenated wire form.
pub open spec fn cut_count(es: Seq<EntryModel>, p: nat) -> nat
    decreases es.len(),
{
    if es.len() == 0 {
        0
    } else if spec_entry_enc_len(es[0]) <= p {
        1 + cut_count(es.skip(1), (p - spec_entry_enc_len(es[0])) as nat)
    } else {
        0
    }
}

/// Iterating the wire form of well-formed entries truncated anywhere
/// yields exactly the entries wholly before the cut, with no spurious
/// entry and no error.
#[verifier::rlimit(100)]
pub proof fn lemma_stream_of_truncation(es: Seq<EntryModel>, p: nat)
    requires
        entries_wf(es),
        p <= concat_enc(es).len(),
    ensures
        cut_count(es, p) <= es.len(),
        spec_wal_stream(concat_enc(es).take(p as int)) == es.take(cut_count(es, p) as int),
    decreases es.len(),
{
    let s = concat_enc(es).take(p as int);
    if es.len() == 0 {
        assert(s =~= Seq::<u8>::empty());
        assert(es.take(0) =~= es);
    } else {
        let e = es[0];
        let h = spec_entry_header(e);
        let hl = spec_header_len(h);
        let ln = spec_entry_enc_len(e);
        lemma_next_entry_of_enc(e, concat_enc(es.skip(1)));
        assert(entries_wf(es.skip(1))) by {
            assert(forall|i: int|
                0 <= i < es.skip(1).len() ==> #[trigger] es.skip(1)[i] == es[i + 1]);
        };
        if ln <= p {
            let k = cut_count(es.skip(1), (p - ln) as nat);
            assert(s =~= spec_entry_enc(e) + concat_enc(es.skip(1)).take(p - ln));
            lemma_next_entry_of_enc(e, concat_enc(es.skip(1)).take(p - ln));
            assert(s.skip(ln as int) =~= concat_enc(es.skip(1)).take(p - ln));
            lemma_stream_of_truncation(es.skip(1), (p - ln) as nat);
            assert(spec_wal_stream(s) =~= seq![e] + es.skip(1).take(k as int));
            assert(es.take(1 + k as int) =~= seq![e] + es.skip(1).take(k as int));
        } else {
            assert(cut_count(es, p) == 0);
            assert(s =~= spec_entry_enc(e).take(p as int));
            lemma_dec_header_of_enc(h, e.key + e.value);
            if p < hl {
                assert(s =~= spec_header_enc(h).take(p as int));
                lemma_dec_header_of_cut(h, p);
                assert(spec_next_entry(s) is None);
            } else {
                assert(s =~= spec_header_enc(h) + (e.key + e.value).take(p - hl));
                lemma_dec_header_of_enc(h, (e.key + e.value).take(p - hl));
                assert(spec_dec_header(s) == Some((h, hl)));
                assert(hl + h.key_len + h.value_len > s.len());
                assert(spec_next_entry(s) is None);
            }
            assert(spec_wal_stream(s) =~= Seq::<EntryModel>::empty());
            assert(es.take(0) =~= Seq::<EntryModel>::empty());
        }
    }
}

/// Copies `src` into `dst` at position `at`, leaving the rest alone.
fn write_bytes_at(dst: &mut Vec<u8>, at: usize, src: &Vec<u8>)
    requires
        at + src.len() <= old(dst).len(),
    ensures
        final(dst).len() == old(dst).len(),
        final(dst)@ == old(dst)@.take(at as int) + src@ + old(dst)@.skip(at + src.len() as int),
{
    let mut i: usize = 0;
    while i < src.len()
        invariant
            i <= src.len(),
            at + src.len() <= dst.len(),
            dst.len() == old(dst).len(),
            forall|j: int| 0 <= j < at ==> dst@[j] == old(dst)@[j],
            forall|j: int| at + src.len() <= j < dst.len() ==> dst@[j] == old(dst)@[j],
            forall|j: int| at + i <= j < at + src.len() ==> dst@[j] == old(dst)@[j],
            forall|j: int| 0 <= j < i ==> dst@[at + j] == src@[j],
        decreases src.len() - i,
    {
        let b = src[i];
        *vstd::std_specs::vec::vec_index_mut(dst, at + i) = b;
        i = i + 1;
    }
    proof {
        assert(final(dst)@ =~= old(dst)@.take(at as int) + src@ + old(dst)@.skip(
            at + src.len() as int,
        ));
    }
}

/// Copies `data[from..to]` out into a fresh vector.
fn copy_range(data: &Vec<u8>, from: usize, to: usize) -> (r: Vec<u8>)
    requires
        from <= to <= data.len(),
    ensures
        r@ == data@.subrange(from as int, to as int),
{
    let mut r: Vec<u8> = Vec::new();
    let mut i: usize = from;
    while i < to
        invariant
            from <= i <= to <= data.len(),
            r@ == data@.subrange(from as int, i as int),
        decreases to - i,
    {
        r.push(data[i]);
        proof {
            assert(data@.subrange(from as int, i + 1) =~= data@.subrange(from as int, i as int)
                + seq![data@[i as int]]);
        }
        i = i + 1;
    }
    r
}

/// Write-ahead log over a mapped byte image.
///
/// The first `size` bytes of `data` are the authoritative log. Entries
/// are appended at `write_at`, and the `MAX_HEADER_SIZE` bytes after
/// the last entry are kept zero as the iteration sentinel. The backing
/// file itself lives outside the library.
pub struct Wal {
    /// The mapped byte image of the log file.
    pub data: Vec<u8>,
    /// Offset at which the next entry is appended.
    pub write_at: u32,
    /// Authoritative length of the log, tracked across truncation.
    pub size: u32,
    /// Scratch buffer reused by `write_entry`.
    pub buf: Vec<u8>,
    /// Engine configuration.
    pub opts: AgateOptions,
    /// The entries appended so far, in order.
    pub entries: Ghost<Seq<EntryModel>>,
}

impl Wal {
    /// The written region holds exactly the wire forms of `entries`,
    /// followed by the zero sentinel.
    pub open spec fn wf(&self) -> bool {
        &&& self.data.len() <= u32::MAX
        &&& self.write_at as int + MAX_HEADER_SIZE as int <= self.data.len()
        &&& entries_wf(self.entries@)
        &&& concat_enc(self.entries@).len() == self.write_at as int
        &&& self.data@.subrange(0, self.write_at as int) == concat_enc(self.entries@)
        &&& forall|i: int|
            self.write_at <= i < self.write_at + MAX_HEADER_SIZE as int ==> self.data@[i] == 0
    }

    /// A fresh, zeroed log image pre-extended to twice the configured
    /// value-log file size, with the sentinel in place.
    pub fn create(opts: AgateOptions) -> (r: Wal)
        requires
            2 * opts.value_log_file_size <= u32::MAX,
            2 * opts.value_log_file_size >= MAX_HEADER_SIZE as u64,
        ensures
            r.wf(),
            r.entries@ == Seq::<EntryModel>::empty(),
            r.write_at == 0,
            r.size == 2 * opts.value_log_file_size,
            r.data.len() == 2 * opts.value_log_file_size,
            r.opts == opts,
    {
        let len_u64 = 2 * opts.value_log_file_size;
        let len: usize = len_u64 as usize;
        let data = vec![0u8; len];
        let w = Wal {
            data,
            write_at: 0,
            size: len as u32,
            buf: Vec::new(),
            opts,
            entries: Ghost(Seq::empty()),
        };
        proof {
            assert(w.data@.subrange(0, 0) =~= concat_enc(w.entries@));
        }
        w
    }

    /// Adopts an existing log image, as read back from its file. The
    /// byte image is authoritative; appending starts over at offset 0,
    /// as it does for a reopened log file.
    pub fn open(data: Vec<u8>, opts: AgateOptions) -> (r: Result<Wal, Error>)
        ensures
            if data.len() <= u32::MAX {
                r matches Ok(w) && w.data@ == data@ && w.write_at == 0 && w.size == data.len()
                    && w.opts == opts && w.entries@ == Seq::<EntryModel>::empty()
            } else {
                r matches Err(Error::TooLong(_))
            },
    {
        if data.len() > 0xffff_ffffusize {
            return Err(Error::TooLong("log file longer than the mapped image allows"));
        }
        let size = data.len() as u32;
        Ok(Wal { data, write_at: 0, size, buf: Vec::new(), opts, entries: Ghost(Seq::empty()) })
    }

    /// Zeroes the sentinel region just past the last entry.
    pub fn zero_next_entry(&mut self) -> (r: Result<(), Error>)
        requires
            old(self).write_at as int + MAX_HEADER_SIZE as int <= old(self).data.len(),
        ensures
            r is Ok,
            final(self).data.len() == old(self).data.len(),
            forall|j: int|
                0 <= j < final(self).data.len() && !(old(self).write_at <= j < old(self).write_at
                    + MAX_HEADER_SIZE as int) ==> final(self).data@[j] == old(self).data@[j],
            forall|j: int|
                old(self).write_at <= j < old(self).write_at + MAX_HEADER_SIZE as int ==> final(self).data@[j] == 0,
            final(self).write_at == old(self).write_at,
            final(self).size == old(self).size,
            final(self).opts == old(self).opts,
            final(self).entries == old(self).entries,
            final(self).buf == old(self).buf,
    {
        let at = self.write_at as usize;
        let mut i: usize = 0;
        while i < MAX_HEADER_SIZE
            invariant
                i <= MAX_HEADER_SIZE,
                at == old(self).write_at as int,
                at + MAX_HEADER_SIZE as int <= self.data.len(),
                self.data.len() == old(self).data.len(),
                forall|j: int|
                    0 <= j < self.data.len() && !(at <= j < at + i) ==> self.data@[j] == old(self).data@[j],
                forall|j: int| at <= j < at + i ==> self.data@[j] == 0,
                self.write_at == old(self).write_at,
                self.size == old(self).size,
                self.opts == old(self).opts,
                self.entries == old(self).entries,
                self.buf == old(self).buf,
            decreases MAX_HEADER_SIZE - i,
        {
            *vstd::std_specs::vec::vec_index_mut(&mut self.data, at + i) = 0u8;
            i = i + 1;
        }
        Ok(())
    }

    /// Appends one entry at `write_at` and restores the sentinel.
    ///
    /// Success is owed exactly when the entry is not the zero sentinel,
    /// both lengths fit the 32-bit header fields, and the encoded entry
    /// plus the sentinel fit below the end of the image. Rejecting the
    /// zero entry is deliberate: its wire form is exactly the sentinel
    /// that marks the end of the log, so a log holding it could not be
    /// read back; it surfaces as the empty-key error.
    pub fn write_entry(&mut self, entry: &Entry) -> (r: Result<(), Error>)
        requires
            old(self).wf(),
        ensures
            final(self).wf(),
            final(self).size == old(self).size,
            final(self).opts == old(self).opts,
            final(self).data.len() == old(self).data.len(),
            if spec_is_zero(entry@) {
                r matches Err(Error::EmptyKey) && final(self).entries@ == old(self).entries@
                    && final(self).write_at == old(self).write_at && final(self).data@ == old(self).data@
            } else if entry.key@.len() > u32::MAX || entry.value@.len() > u32::MAX || old(self).write_at + spec_entry_enc_len(entry@) + MAX_HEADER_SIZE as int > old(self).data.len() {
                r matches Err(Error::TooLong(_)) && final(self).entries@ == old(self).entries@
                    && final(self).write_at == old(self).write_at && final(self).data@ == old(self).data@
            } else {
                &&& r is Ok
                &&& final(self).entries@ == old(self).entries@.push(entry@)
                &&& final(self).write_at == old(self).write_at + spec_entry_enc_len(entry@)
            },
    {
        if entry.is_zero() {
            return Err(Error::EmptyKey);
        }
        if entry.key.len() > 0xffff_ffffusize || entry.value.len() > 0xffff_ffffusize {
            return Err(Error::TooLong("key or value too long for the header"));
        }
        let header = Header {
            key_len: entry.key.len() as u32,
            value_len: entry.value.len() as u32,
            expires_at: entry.expires_at,
            meta: entry.meta,
            user_meta: entry.user_meta,
        };
        proof {
            assert(header == spec_entry_header(entry@));
        }
        let hl = header.encoded_len();
        let at = self.write_at as usize;
        if self.data.len() < MAX_HEADER_SIZE || at > self.data.len() - MAX_HEADER_SIZE {
            return Err(Error::TooLong("entry does not fit in the log image"));
        }
        let avail = self.data.len() - MAX_HEADER_SIZE - at;
        if hl > avail || entry.key.len() > avail - hl || entry.value.len() > avail - hl
            - entry.key.len() {
            return Err(Error::TooLong("entry does not fit in the log image"));
        }
        let needed = hl + entry.key.len() + entry.value.len();
        self.buf.clear();
        let ghost empty_buf = self.buf@;
        header.encode(&mut self.buf);
        self.buf.extend_from_slice(entry.key.as_slice());
        self.buf.extend_from_slice(entry.value.as_slice());
        proof {
            assert(self.buf@ =~= spec_entry_enc(entry@));
        }
        let ghost pre_data = self.data@;
        write_bytes_at(&mut self.data, at, &self.buf);
        let written = self.buf.len();
        self.write_at = self.write_at + written as u32;
        let ghost mid_data = self.data@;
        let result = self.zero_next_entry();
        proof {
            self.entries@ = old(self).entries@.push(entry@);
            lemma_concat_push(old(self).entries@, entry@);
            assert(entries_wf(self.entries@)) by {
                assert(forall|i: int|
                    0 <= i < old(self).entries@.len() ==> #[trigger] self.entries@[i] == old(self).entries@[i]);
                assert(self.entries@[old(self).entries@.len() as int] == entry@);
            };
            assert(mid_data.subrange(0, at as int) =~= pre_data.subrange(0, at as int));
            assert(mid_data.subrange(at as int, at + written) =~= self.buf@);
            assert(self.data@.subrange(0, self.write_at as int) =~= concat_enc(self.entries@));
        }
        result
    }

    /// Reads `len` bytes at `offset` from the image, as the value log
    /// does; fails with `LogRead` when the range leaves the mapped
    /// image or the authoritative size.
    pub fn read(&self, p: &ValuePointer) -> (r: Result<Vec<u8>, Error>)
        ensures
            if p.offset as int >= self.data.len() || p.offset as int + p.len as int
                > self.data.len() || p.offset as int + p.len as int > self.size as int {
                r matches Err(Error::LogRead(_))
            } else {
                r matches Ok(v) && v@ == self.data@.subrange(
                    p.offset as int,
                    p.offset as int + p.len as int,
                )
            },
    {
        let offset = p.offset as usize;
        let value_size = p.len as usize;
        if offset >= self.data.len() || value_size > self.data.len() - offset {
            return Err(Error::LogRead("EOF"));
        }
        if p.offset as u64 + p.len as u64 > self.size as u64 {
            return Err(Error::LogRead("EOF"));
        }
        Ok(copy_range(&self.data, offset, offset + value_size))
    }

    /// Records a truncation of the backing file: from here on only the
    /// first `end` bytes are authoritative.
    pub fn truncate(&mut self, end: u64) -> (r: Result<(), Error>)
        requires
            end <= u32::MAX,
        ensures
            r is Ok,
            final(self).size == end,
            final(self).data == old(self).data,
            final(self).write_at == old(self).write_at,
            final(self).opts == old(self).opts,
            final(self).entries == old(self).entries,
    {
        self.size = end as u32;
        Ok(())
    }

    /// A forward iterator over the authoritative bytes of the log.
    pub fn iter(&self) -> (r: Result<WalIterator, Error>)
        requires
            self.size as int <= self.data.len(),
        ensures
            r matches Ok(it) && it.data@ == self.data@.subrange(0, self.size as int)
                && it.read_at == 0,
    {
        let d = copy_range(&self.data, 0, self.size as usize);
        Ok(WalIterator::new(d))
    }

    /// Whether the log has grown past the configured soft limit and the
    /// owning memtable or value log should rotate it.
    pub fn should_flush(&self) -> (r: bool)
        ensures
            r == (self.write_at as u64 > self.opts.value_log_file_size),
    {
        self.write_at as u64 > self.opts.value_log_file_size
    }

    /// The authoritative size, which truncation may have left smaller
    /// than the mapped image.
    pub fn size(&self) -> (r: u32)
        ensures
            r == self.size,
    {
        self.size
    }

    /// Overrides the authoritative size, as the value log does when it
    /// extends or shrinks the file from outside.
    pub fn set_size(&mut self, size: u32)
        ensures
            final(self).size == size,
            final(self).data == old(self).data,
            final(self).write_at == old(self).write_at,
            final(self).opts == old(self).opts,
            final(self).entries == old(self).entries,
    {
        self.size = size;
    }

    /// The mapped byte image, for the shell that flushes it to disk.
    pub fn data(&self) -> (r: &Vec<u8>)
        ensures
            r@ == self.data@,
    {
        &self.data
    }
}

/// Forward iterator over a log image: yields entries until the zero
/// sentinel, a torn tail, or the end of the bytes.
pub struct WalIterator {
    /// The authoritative bytes of the log being replayed.
    pub data: Vec<u8>,
    /// Offset of the next entry to decode.
    pub read_at: usize,
}

impl WalIterator {
    /// An iterator positioned at the start of `data`.
    pub fn new(data: Vec<u8>) -> (r: WalIterator)
        ensures
            r.data == data,
            r.read_at == 0,
    {
        WalIterator { data, read_at: 0 }
    }

    /// Decodes the next entry. Yields `None` at the zero sentinel and
    /// on every torn-tail shape — short header, malformed varint, key
    /// or value bytes cut off — and never yields an error for them.
    pub fn next(&mut self) -> (r: Option<Result<Entry, Error>>)
        requires
            old(self).read_at <= old(self).data.len(),
        ensures
            final(self).data == old(self).data,
            final(self).read_at <= final(self).data.len(),
            match spec_next_entry(old(self).data@.skip(old(self).read_at as int)) {
                Some((e, n)) => {
                    &&& r matches Some(x)
                    &&& x matches Ok(en)
                    &&& en@ == e
                    &&& en.version == 0
                    &&& final(self).read_at == old(self).read_at + n
                },
                None => r is None && final(self).read_at == old(self).read_at,
            },
    {
        let ghost s = self.data@.skip(self.read_at as int);
        let (h, hend) = match Header::decode(&self.data, self.read_at) {
            Err(_) => {
                return None;
            },
            Ok(p) => p,
        };
        proof {
            lemma_dec_header_sound(s);
        }
        let kl = h.key_len as usize;
        let vl = h.value_len as usize;
        if kl > self.data.len() - hend || vl > self.data.len() - hend - kl {
            return None;
        }
        let key = copy_range(&self.data, hend, hend + kl);
        let value = copy_range(&self.data, hend + kl, hend + kl + vl);
        let entry = Entry {
            key,
            value,
            expires_at: h.expires_at,
            version: 0,
            user_meta: h.user_meta,
            meta: h.meta,
        };
        proof {
            let hl = spec_dec_header(s)->Some_0.1;
            assert(entry.key@ =~= s.subrange(hl as int, hl as int + h.key_len as int));
            assert(entry.value@ =~= s.subrange(
                hl as int + h.key_len as int,
                hl as int + h.key_len as int + h.value_len as int,
            ));
        }
        if entry.is_zero() {
            return None;
        }
        self.read_at = hend + kl + vl;
        Some(Ok(entry))
    }
}

/// A fresh iteration over an untruncated, well-formed log yields
/// exactly the entries written, in order, then stops cleanly.
pub proof fn lemma_wal_roundtrip(w: &Wal)
    requires
        w.wf(),
        w.write_at as int + MAX_HEADER_SIZE as int <= w.size as int,
        w.size as int <= w.data.len(),
    ensures
        spec_wal_stream(w.data@.subrange(0, w.size as int)) == w.entries@,
{
    let s = w.data@.subrange(0, w.size as int);
    let tail = s.skip(w.write_at as int);
    assert(forall|i: int| 0 <= i < 5 ==> tail[i] == 0);
    lemma_next_entry_zeros(tail);
    assert(s =~= concat_enc(w.entries@) + tail);
    lemma_stream_of_concat(w.entries@, tail);
}

/// Truncating a well-formed log anywhere inside the written region
/// still iterates cleanly: it yields exactly the entries wholly before
/// the cut — a prefix of what was written — and no error.
pub proof fn lemma_wal_torn_tail(w: &Wal, p: nat)
    requires
        w.wf(),
        p <= w.write_at as nat,
    ensures
        cut_count(w.entries@, p) <= w.entries@.len(),
        spec_wal_stream(w.data@.subrange(0, p as int)) == w.entries@.take(
            cut_count(w.entries@, p) as int,
        ),
{
    assert(w.data@.subrange(0, p as int) =~= concat_enc(w.entries@).take(p as int));
    lemma_stream_of_truncation(w.entries@, p);
}

} // verus!
