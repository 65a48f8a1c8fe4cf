//! Values, entries, and value pointers.
//!
//! A value is persisted inside a table block as
//! `meta(1) ‖ user_meta(1) ‖ varint(expires_at) ‖ payload`; the version
//! is not part of the encoding, it travels in the key's suffix.

use vstd::prelude::*;
use crate::codec::{
    decode_varint_u64, encode_varint_u64, lemma_dec_of_enc, spec_dec_varint, spec_varint,
    spec_varint_len, varint_u64_bytes_len,
};

verus! {

/// A record as the read path hands it out.
pub struct Value {
    pub meta: u8,
    pub user_meta: u8,
    pub expires_at: u64,
    pub value: Vec<u8>,
    pub version: u64,
}

/// Reference into a value log: file, offset, and length.
#[derive(Clone, Copy, PartialEq, Eq, Structural, Debug)]
pub struct ValuePointer {
    pub file_id: u32,
    pub len: u32,
    pub offset: u32,
}

/// A write-ahead-log record before framing.
pub struct Entry {
    pub key: Vec<u8>,
    pub value: Vec<u8>,
    pub expires_at: u64,
    pub version: u64,
    pub user_meta: u8,
    pub meta: u8,
}

/// Mathematical model of an entry: what the WAL framing persists.
pub ghost struct EntryModel {
    pub key: Seq<u8>,
    pub value: Seq<u8>,
    pub expires_at: u64,
    pub user_meta: u8,
    pub meta: u8,
}

impl View for Entry {
    type V = EntryModel;

    open spec fn view(&self) -> EntryModel {
        EntryModel {
            key: self.key@,
            value: self.value@,
            expires_at: self.expires_at,
            user_meta: self.user_meta,
            meta: self.meta,
        }
    }
}

/// An entry whose lengths fit the 32-bit header fields.
pub open spec fn entry_model_wf(e: EntryModel) -> bool {
    e.key.len() <= u32::MAX && e.value.len() <= u32::MAX
}

/// The zero sentinel: empty key and value, zero metadata.
pub open spec fn spec_is_zero(e: EntryModel) -> bool {
    e.key.len() == 0 && e.value.len() == 0 && e.meta == 0 && e.user_meta == 0
}

impl Entry {
    /// A plain entry carrying `key` and `value` and zeroed metadata.
    pub fn new(key: Vec<u8>, value: Vec<u8>) -> (r: Entry)
        ensures
            r@.key == key@,
            r@.value == value@,
            r@.expires_at == 0,
            r@.meta == 0,
            r@.user_meta == 0,
            r.version == 0,
    {
        Entry { key, value, expires_at: 0, version: 0, user_meta: 0, meta: 0 }
    }

    /// Whether this entry is the zero sentinel.
    pub fn is_zero(&self) -> (r: bool)
        ensures
            r == spec_is_zero(self@),
    {
        self.key.len() == 0 && self.value.len() == 0 && self.meta == 0 && self.user_meta == 0
    }
}

/// The block encoding of a value.
pub open spec fn spec_value_enc(meta: u8, user_meta: u8, expires_at: u64, payload: Seq<u8>) -> Seq<
    u8,
> {
    seq![meta, user_meta] + spec_varint(expires_at as nat) + payload
}

impl Value {
    /// A value with empty payload and zeroed metadata.
    pub fn empty() -> (r: Value)
        ensures
            r.meta == 0,
            r.user_meta == 0,
            r.expires_at == 0,
            r.value@.len() == 0,
            r.version == 0,
    {
        Value { meta: 0, user_meta: 0, expires_at: 0, value: Vec::new(), version: 0 }
    }

    /// Number of bytes `encode` appends.
    pub fn encoded_size(&self) -> (r: usize)
        requires
            self.value.len() + 12 <= usize::MAX,
        ensures
            r == 2 + spec_varint_len(self.expires_at as nat) + self.value@.len(),
    {
        proof {
            crate::codec::lemma_varint_len_u64(self.expires_at as nat);
        }
        let vl = varint_u64_bytes_len(self.expires_at);
        2 + vl + self.value.len()
    }

    /// Appends the block encoding of this value to `buf`.
    pub fn encode(&self, buf: &mut Vec<u8>)
        requires
            old(buf).len() + self.value.len() + 12 <= usize::MAX,
        ensures
            final(buf)@ == old(buf)@ + spec_value_enc(
                self.meta,
                self.user_meta,
                self.expires_at,
                self.value@,
            ),
    {
        proof {
            crate::codec::lemma_varint_len_u64(self.expires_at as nat);
        }
        buf.push(self.meta);
        buf.push(self.user_meta);
        encode_varint_u64(buf, self.expires_at);
        proof {
            crate::codec::lemma_varint_shape(self.expires_at as nat);
            assert(self.value@.take(0) =~= Seq::<u8>::empty());
        }
        let mut i: usize = 0;
        while i < self.value.len()
            invariant
                i <= self.value.len(),
                buf@ == old(buf)@ + seq![self.meta, self.user_meta] + spec_varint(
                    self.expires_at as nat,
                ) + self.value@.take(i as int),
                buf.len() == old(buf).len() + 2 + spec_varint_len(self.expires_at as nat) + i,
            decreases self.value.len() - i,
        {
            buf.push(self.value[i]);
            proof {
                assert(self.value@.take(i + 1) =~= self.value@.take(i as int) + seq![
                    self.value@[i as int],
                ]);
            }
            i = i + 1;
        }
        proof {
            assert(self.value@.take(self.value@.len() as int) =~= self.value@);
            assert(final(buf)@ =~= old(buf)@ + spec_value_enc(
                self.meta,
                self.user_meta,
                self.expires_at,
                self.value@,
            ));
        }
    }

    /// Reads the fields back from a block encoding. The version is left
    /// as it was: it is not part of the encoding.
    pub fn decode(&mut self, data: &Vec<u8>) -> (r: bool)
        ensures
            ({
                let d = spec_dec_varint(data@.skip(2));
                if data@.len() >= 2 && d is Some {
                    let (ex, n) = d->Some_0;
                    &&& r
                    &&& final(self).meta == data@[0]
                    &&& final(self).user_meta == data@[1]
                    &&& final(self).expires_at == ex
                    &&& final(self).value@ == data@.skip(2 + n as int)
                    &&& final(self).version == old(self).version
                } else {
                    !r && *final(self) == *old(self)
                }
            }),
    {
        if data.len() < 2 {
            return false;
        }
        match decode_varint_u64(data, 2) {
            None => false,
            Some((ex, end)) => {
                self.meta = data[0];
                self.user_meta = data[1];
                self.expires_at = ex;
                let mut payload: Vec<u8> = Vec::new();
                let mut i: usize = end;
                proof {
                    crate::codec::lemma_dec_sound(data@.skip(2));
                }
                while i < data.len()
                    invariant
                        end <= i <= data.len(),
                        payload@ == data@.subrange(end as int, i as int),
                    decreases data.len() - i,
                {
                    payload.push(data[i]);
                    proof {
                        assert(data@.subrange(end as int, i + 1) =~= data@.subrange(
                            end as int,
                            i as int,
                        ) + seq![data@[i as int]]);
                    }
                    i = i + 1;
                }
                self.value = payload;
                proof {
                    assert(data@.subrange(end as int, data@.len() as int) =~= data@.skip(
                        end as int,
                    ));
                }
                true
            },
        }
    }
}

/// Parsing an encoded value recovers its fields.
pub proof fn lemma_value_enc_parse(meta: u8, user_meta: u8, expires_at: u64, payload: Seq<u8>)
    ensures
        ({
            let s = spec_value_enc(meta, user_meta, expires_at, payload);
            &&& s.len() >= 2
            &&& s[0] == meta
            &&& s[1] == user_meta
            &&& spec_dec_varint(s.skip(2)) == Some(
                (expires_at, spec_varint_len(expires_at as nat)),
            )
            &&& s.skip(2 + spec_varint_len(expires_at as nat) as int) == payload
        }),
{
    let s = spec_value_enc(meta, user_meta, expires_at, payload);
    assert(s.skip(2) =~= spec_varint(expires_at as nat) + payload);
    lemma_dec_of_enc(expires_at as nat, payload);
    crate::codec::lemma_varint_shape(expires_at as nat);
    assert(s.skip(2 + spec_varint_len(expires_at as nat) as int) =~= payload);
}

} // verus!
