//! The serializer of the line protocol.
//!
//! Values are framed as the protocol prescribes: integers as `:` and a
//! signed decimal, byte strings as `$`-prefixed bulk strings, absent
//! values as the null bulk string, and composites as `*`-counted
//! arrays.  The serializer writes into an in-memory buffer; whoever
//! owns a socket sends the buffer.

use crate::num::dec_digits;
use crate::num::dec_int;
use crate::num::i64_to_dec;
use crate::num::lemma_dec_digits_value;
use crate::num::spec_parse_u32;
use crate::num::u64_to_dec;
use crate::resp::lemma_crlf_at_unique;
use crate::resp::spec_value;
use crate::resp::Error;
use crate::resp::RespData;
use vstd::prelude::*;
use vstd::slice::slice_to_vec;

verus! {

/// An integer token: `:` then the signed decimal.
pub open spec fn resp_int(v: i64) -> Seq<u8> {
    seq![58u8] + dec_int(v as int)
}

/// A bulk string: `$`, the byte length in decimal, CRLF, the bytes,
/// CRLF.
pub open spec fn resp_bulk(b: Seq<u8>) -> Seq<u8> {
    seq![36u8] + dec_digits(b.len()) + seq![13u8, 10u8] + b + seq![13u8, 10u8]
}

/// The null bulk string.
pub open spec fn resp_null() -> Seq<u8> {
    seq![36u8, 45u8, 49u8, 13u8, 10u8]
}

/// An array header: `*`, the element count in decimal, CRLF.
pub open spec fn resp_array_header(n: nat) -> Seq<u8> {
    seq![42u8] + dec_digits(n) + seq![13u8, 10u8]
}

/// ASCII uppercase of one byte; other bytes pass through.
pub open spec fn ascii_upper(b: u8) -> u8 {
    if 97 <= b <= 122 {
        (b - 32) as u8
    } else {
        b
    }
}

/// ASCII uppercase of a byte string.
pub open spec fn upper_seq(s: Seq<u8>) -> Seq<u8> {
    s.map_values(|b: u8| ascii_upper(b))
}

/// Copies `v` with ASCII letters uppercased.
pub fn to_upper(v: &[u8]) -> (out: Vec<u8>)
    ensures
        out@ == upper_seq(v@),
{
    let n = v.len();
    let mut out: Vec<u8> = Vec::new();
    let mut i: usize = 0;
    while i < n
        invariant
            i <= n,
            n == v@.len(),
            out@.len() == i,
            forall|j: int| 0 <= j < i ==> out@[j] == ascii_upper(v@[j]),
        decreases n - i,
    {
        let b = v[i];
        if b >= 97 && b <= 122 {
            out.push(b - 32);
        } else {
            out.push(b);
        }
        i = i + 1;
    }
    proof {
        assert(out@ =~= upper_seq(v@));
    }
    out
}

/// Writes protocol frames into an owned buffer.
pub struct Serializer {
    pub writer: Vec<u8>,
}

impl Serializer {
    /// A serializer with an empty buffer.
    pub fn new() -> (s: Serializer)
        ensures
            s.writer@ == Seq::<u8>::empty(),
    {
        Serializer { writer: Vec::new() }
    }

    /// Writes an integer token.  Every fixed-width integer funnels
    /// into this one.
    pub fn serialize_i64(&mut self, v: i64)
        ensures
            final(self).writer@ == old(self).writer@ + resp_int(v),
    {
        self.writer.push(58);
        let mut d = i64_to_dec(v);
        self.writer.append(&mut d);
        proof {
            assert(self.writer@ =~= old(self).writer@ + resp_int(v));
        }
    }

    /// Writes an `i8` as an integer token.
    pub fn serialize_i8(&mut self, v: i8)
        ensures
            final(self).writer@ == old(self).writer@ + resp_int(v as i64),
    {
        self.serialize_i64(v as i64);
    }

    /// Writes an `i16` as an integer token.
    pub fn serialize_i16(&mut self, v: i16)
        ensures
            final(self).writer@ == old(self).writer@ + resp_int(v as i64),
    {
        self.serialize_i64(v as i64);
    }

    /// Writes an `i32` as an integer token.
    pub fn serialize_i32(&mut self, v: i32)
        ensures
            final(self).writer@ == old(self).writer@ + resp_int(v as i64),
    {
        self.serialize_i64(v as i64);
    }

    /// Writes a `u8` as an integer token.
    pub fn serialize_u8(&mut self, v: u8)
        ensures
            final(self).writer@ == old(self).writer@ + resp_int(v as i64),
    {
        self.serialize_i64(v as i64);
    }

    /// Writes a `u16` as an integer token.
    pub fn serialize_u16(&mut self, v: u16)
        ensures
            final(self).writer@ == old(self).writer@ + resp_int(v as i64),
    {
        self.serialize_i64(v as i64);
    }

    /// Writes a `u32` as an integer token.
    pub fn serialize_u32(&mut self, v: u32)
        ensures
            final(self).writer@ == old(self).writer@ + resp_int(v as i64),
    {
        self.serialize_i64(v as i64);
    }

    /// Writes a bulk string.
    pub fn serialize_bytes(&mut self, v: &[u8])
        ensures
            final(self).writer@ == old(self).writer@ + resp_bulk(v@),
    {
        self.writer.push(36);
        let mut d = u64_to_dec(v.len() as u64);
        self.writer.append(&mut d);
        self.writer.push(13);
        self.writer.push(10);
        let mut b = slice_to_vec(v);
        self.writer.append(&mut b);
        self.writer.push(13);
        self.writer.push(10);
        proof {
            assert(self.writer@ =~= old(self).writer@ + resp_bulk(v@));
        }
    }

    /// Writes a string as a bulk string.  A string here is its UTF-8
    /// bytes: the protocol carries bytes and cares no further.
    pub fn serialize_str(&mut self, v: &[u8])
        ensures
            final(self).writer@ == old(self).writer@ + resp_bulk(v@),
    {
        self.serialize_bytes(v);
    }

    /// Writes the null bulk string, the protocol's absent value.
    pub fn serialize_none(&mut self)
        ensures
            final(self).writer@ == old(self).writer@ + resp_null(),
    {
        self.writer.push(36);
        self.writer.push(45);
        self.writer.push(49);
        self.writer.push(13);
        self.writer.push(10);
        proof {
            assert(self.writer@ =~= old(self).writer@ + resp_null());
        }
    }

    /// Writes an array header for `len` elements; a sequence of
    /// unknown length cannot be framed.
    pub fn serialize_seq(&mut self, len: Option<usize>) -> (r: Result<(), Error>)
        ensures
            match len {
                Some(n) => r is Ok && final(self).writer@ == old(self).writer@
                    + resp_array_header(n as nat),
                None => (r matches Err(Error::LenNotAvailable)) && *final(self) == *old(self),
            },
    {
        match len {
            None => Err(Error::LenNotAvailable),
            Some(n) => {
                self.writer.push(42);
                let mut d = u64_to_dec(n as u64);
                self.writer.append(&mut d);
                self.writer.push(13);
                self.writer.push(10);
                proof {
                    assert(self.writer@ =~= old(self).writer@ + resp_array_header(n as nat));
                }
                Ok(())
            },
        }
    }

    /// Writes a unit variant as the bulk string of its uppercased
    /// name.
    pub fn serialize_unit_variant(&mut self, variant: &[u8])
        ensures
            final(self).writer@ == old(self).writer@ + resp_bulk(upper_seq(variant@)),
    {
        let up = to_upper(variant);
        self.serialize_bytes(up.as_slice());
    }

    /// Opens a struct frame: an array of the field count plus one,
    /// led by the bulk string of the struct's uppercased name.
    pub fn serialize_struct(&mut self, name: &[u8], len: usize)
        requires
            len < usize::MAX,
        ensures
            final(self).writer@ == old(self).writer@ + resp_array_header((len + 1) as nat)
                + resp_bulk(upper_seq(name@)),
    {
        let r = self.serialize_seq(Some(len + 1));
        let up = to_upper(name);
        self.serialize_bytes(up.as_slice());
    }
}

/// The serializer and the parser agree on bulk strings: a bulk frame
/// parses back as exactly the bytes it framed, consuming the whole
/// frame.
pub proof fn lemma_bulk_frame_parses(m: Seq<u8>)
    requires
        m.len() <= u32::MAX,
    ensures
        spec_value(resp_bulk(m), 0) == Some((RespData::Str(m), resp_bulk(m).len() as int)),
{
    let win = resp_bulk(m);
    let dd = dec_digits(m.len());
    let dlen = dd.len() as int;
    let mlen = m.len() as int;
    lemma_dec_digits_value(m.len());
    assert(win[0] == 36);
    assert(forall|i: int| 0 <= i < dlen ==> win[1 + i] == #[trigger] dd[i]);
    assert(win[1 + dlen] == 13);
    assert(win[2 + dlen] == 10);
    assert(forall|i: int| 0 <= i < mlen ==> win[3 + dlen + i] == #[trigger] m[i]);
    assert(win[3 + dlen + mlen] == 13);
    assert(win[4 + dlen + mlen] == 10);
    assert forall|t: int| 1 <= t < 1 + dlen implies !(#[trigger] win[t] == 13 && win[t + 1]
        == 10) by {
        assert(win[t] == dd[t - 1]);
        assert(48 <= dd[t - 1] <= 57);
    }
    lemma_crlf_at_unique(win, 1, 1 + dlen);
    assert(win.subrange(1, 1 + dlen) =~= dd);
    assert(spec_parse_u32(dd) == Some(m.len() as u32));
    assert(win.subrange(3 + dlen, 3 + dlen + mlen) =~= m);
}

/// The serializer and the parser agree on the null frame.
pub proof fn lemma_null_frame_parses()
    ensures
        spec_value(resp_null(), 0) == Some((RespData::Null, 5int)),
{
    let win = resp_null();
    assert(win[0] == 36 && win[1] == 45 && win[2] == 49 && win[3] == 13 && win[4] == 10);
    assert forall|t: int| 1 <= t < 3 implies !(#[trigger] win[t] == 13 && win[t + 1] == 10) by {}
    lemma_crlf_at_unique(win, 1, 3);
    assert(win.subrange(1, 3) =~= seq![45u8, 49u8]);
    assert(spec_parse_u32(seq![45u8, 49u8]) is None) by {
        assert(!crate::num::is_dec_digit(45));
    }
}

} // verus!
