//! The deserializer of the line protocol.
//!
//! It reads an owned byte buffer — whoever owns a socket fills it —
//! one CRLF-terminated line at a time into a scratch buffer, and
//! decodes length-prefixed bulk strings by their declared length.
//! Each method's contract states exactly which bytes it consumes and
//! what it leaves in the scratch buffer.

use crate::num::spec_parse_i64;
use crate::resp::Error;
use vstd::prelude::*;
use vstd::slice::slice_subrange;
use vstd::slice::slice_to_vec;

verus! {

/// `j` is the first position at or after `pos` holding a line feed.
pub open spec fn lf_at(s: Seq<u8>, pos: int, j: int) -> bool {
    &&& pos <= j < s.len()
    &&& s[j] == 10
    &&& forall|t: int| pos <= t < j ==> #[trigger] s[t] != 10
}

/// Whether any line feed occurs at or after `pos`.
pub open spec fn has_lf(s: Seq<u8>, pos: int) -> bool {
    exists|j: int| lf_at(s, pos, j)
}

/// The first line-feed position at or after `pos`.
pub open spec fn lf_pos(s: Seq<u8>, pos: int) -> int {
    choose|j: int| lf_at(s, pos, j)
}

/// The first line-feed position is unique.
pub proof fn lemma_lf_at_unique(s: Seq<u8>, pos: int, j: int)
    requires
        lf_at(s, pos, j),
    ensures
        has_lf(s, pos),
        lf_pos(s, pos) == j,
{
    let j2 = lf_pos(s, pos);
    assert(lf_at(s, pos, j2));
    if j2 < j {
        assert(s[j2] != 10);
        assert(false);
    } else if j < j2 {
        assert(s[j] != 10);
        assert(false);
    }
}

/// Reads protocol frames out of an owned input buffer.
pub struct Deserializer {
    pub input: Vec<u8>,
    pub pos: usize,
    pub buffer: Vec<u8>,
}

impl Deserializer {
    /// The read position never passes the end of the input.
    pub open spec fn wf(self) -> bool {
        self.pos <= self.input@.len()
    }

    /// A deserializer at the start of `input` with an empty scratch
    /// buffer.
    pub fn new(input: Vec<u8>) -> (d: Deserializer)
        ensures
            d.wf(),
            d.input@ == input@,
            d.pos == 0,
            d.buffer@ == Seq::<u8>::empty(),
    {
        Deserializer { input, pos: 0, buffer: Vec::new() }
    }

    /// Reads the next CRLF-terminated line into the scratch buffer,
    /// dropping the delimiter, and advances past it.
    ///
    /// At the end of the input this is `Eof`; a line that does not end
    /// in CRLF — no line feed before the input ends, or a line feed
    /// not preceded by a carriage return — is `InvalidFormat`.
    pub fn read_next_item(&mut self) -> (r: Result<(), Error>)
        requires
            old(self).wf(),
        ensures
            final(self).wf(),
            final(self).input == old(self).input,
            ({
                let s = old(self).input@;
                let p = old(self).pos as int;
                match r {
                    Ok(()) => {
                        &&& has_lf(s, p)
                        &&& lf_pos(s, p) >= p + 1
                        &&& s[lf_pos(s, p) - 1] == 13
                        &&& final(self).buffer@ == s.subrange(p, lf_pos(s, p) - 1)
                        &&& final(self).pos == lf_pos(s, p) + 1
                    },
                    Err(Error::Eof) => p == s.len() && *final(self) == *old(self),
                    Err(Error::InvalidFormat(b)) => {
                        &&& b == 10
                        &&& p < s.len()
                        &&& if has_lf(s, p) {
                            let j = lf_pos(s, p);
                            (j == p || s[j - 1] != 13) && final(self).pos == j + 1
                        } else {
                            final(self).pos == s.len()
                        }
                    },
                    _ => false,
                }
            }),
    {
        let n = self.input.len();
        let p = self.pos;
        if p == n {
            return Err(Error::Eof);
        }
        let mut j: usize = p;
        while j < n && self.input[j] != 10
            invariant
                p <= j <= n,
                n == self.input@.len(),
                forall|t: int| p <= t < j ==> #[trigger] self.input@[t] != 10,
            decreases n - j,
        {
            j = j + 1;
        }
        if j == n {
            // No line feed before the end: consume the rest.
            proof {
                if has_lf(self.input@, p as int) {
                    let j2 = lf_pos(self.input@, p as int);
                    assert(lf_at(self.input@, p as int, j2));
                    assert(self.input@[j2] != 10);
                }
            }
            self.pos = n;
            return Err(Error::InvalidFormat(10));
        }
        proof {
            lemma_lf_at_unique(self.input@, p as int, j as int);
        }
        if j == p || self.input[j - 1] != 13 {
            self.pos = j + 1;
            return Err(Error::InvalidFormat(10));
        }
        let line = slice_to_vec(slice_subrange(self.input.as_slice(), p, j - 1));
        self.buffer = line;
        self.pos = j + 1;
        Ok(())
    }

    /// Reads the scratch buffer past its marker byte as a length:
    /// `-1` means the null value, other negatives and overflows are
    /// refused, anything that is not a decimal fails to parse.
    pub fn parse_len(&self) -> (r: Result<Option<usize>, Error>)
        requires
            self.buffer@.len() >= 1,
        ensures
            ({
                let line = self.buffer@.skip(1);
                match r {
                    Ok(None) => spec_parse_i64(line) == Some(-1i64),
                    Ok(Some(n)) => spec_parse_i64(line) == Some(n as i64) && n as int
                        <= usize::MAX && n as int <= i64::MAX,
                    Err(Error::ParseInt) => spec_parse_i64(line) is None,
                    Err(Error::InvalidLen) => (spec_parse_i64(line) matches Some(x) && x != -1
                        && (x < 0 || x as int > usize::MAX)),
                    _ => false,
                }
            }),
    {
        let blen = self.buffer.len();
        match crate::resp::parse_i64_range(self.buffer.as_slice(), 1, blen) {
            None => Err(Error::ParseInt),
            Some(x) => {
                if x == -1 {
                    Ok(None)
                } else if x < 0 {
                    Err(Error::InvalidLen)
                } else {
                    if x as u64 > usize::MAX as u64 {
                        Err(Error::InvalidLen)
                    } else {
                        Ok(Some(x as usize))
                    }
                }
            },
        }
    }

    /// Reads a bulk string whose header line sits in the scratch
    /// buffer: takes the declared number of bytes plus the closing
    /// CRLF from the input, leaves the payload in the scratch buffer,
    /// and returns a copy.  A `-1` length is the null value.
    pub fn parse_bulk_string(&mut self) -> (r: Result<Option<Vec<u8>>, Error>)
        requires
            old(self).wf(),
            old(self).buffer@.len() >= 1,
        ensures
            final(self).wf(),
            final(self).input == old(self).input,
            ({
                let s = old(self).input@;
                let p = old(self).pos as int;
                let line = old(self).buffer@.skip(1);
                match r {
                    Ok(Some(data)) => {
                        &&& old(self).buffer@[0] == 36
                        &&& (spec_parse_i64(line) matches Some(x) && x >= 0 && {
                            let len = x as int;
                            &&& p + len + 2 <= s.len()
                            &&& data@ == s.subrange(p, p + len)
                            &&& s[p + len] == 13
                            &&& s[p + len + 1] == 10
                            &&& final(self).pos == p + len + 2
                            &&& final(self).buffer@ == data@
                        })
                    },
                    Ok(None) => old(self).buffer@[0] == 36 && spec_parse_i64(line) == Some(-1i64)
                        && *final(self) == *old(self),
                    Err(Error::ExpectedBulkString) => old(self).buffer@[0] != 36 && *final(self)
                        == *old(self),
                    Err(Error::ParseInt) => spec_parse_i64(line) is None && *final(self) == *old(
                        self,
                    ),
                    Err(Error::InvalidLen) => {
                        // A negative or oversized length, or a payload
                        // not closed by CRLF.
                        &&& old(self).buffer@[0] == 36
                        &&& *final(self) == *old(self)
                        &&& (spec_parse_i64(line) matches Some(x) && x != -1 && (x < 0 || x as int
                            > usize::MAX || (0 <= x && p + x + 2 <= s.len() && (s[p + x] != 13 || s[
                            p + x + 1] != 10))))
                    },
                    Err(Error::Eof) => {
                        // The input ends before the declared payload.
                        &&& old(self).buffer@[0] == 36
                        &&& (spec_parse_i64(line) matches Some(x) && x >= 0 && p + x + 2
                            > s.len())
                        &&& *final(self) == *old(self)
                    },
                    _ => false,
                }
            }),
    {
        let b0 = self.buffer[0];
        if b0 != 36 {
            return Err(Error::ExpectedBulkString);
        }
        let len_opt = match self.parse_len() {
            Ok(v) => v,
            Err(e) => {
                return Err(e);
            },
        };
        let len = match len_opt {
            None => {
                return Ok(None);
            },
            Some(l) => l,
        };
        let n = self.input.len();
        let p = self.pos;
        if len > n - p || 2 > n - p - len {
            return Err(Error::Eof);
        }
        if self.input[p + len] != 13 || self.input[p + len + 1] != 10 {
            return Err(Error::InvalidLen);
        }
        let data = slice_to_vec(slice_subrange(self.input.as_slice(), p, p + len));
        let copy = slice_to_vec(data.as_slice());
        self.buffer = data;
        self.pos = p + len + 2;
        Ok(Some(copy))
    }

    /// Reads the string form the scratch buffer holds: the payload of
    /// a bulk-string header, or the rest of a simple-string or error
    /// line.
    pub fn parse_any_str(&mut self) -> (r: Result<Vec<u8>, Error>)
        requires
            old(self).wf(),
        ensures
            final(self).wf(),
            final(self).input == old(self).input,
            ({
                let s = old(self).input@;
                let p = old(self).pos as int;
                let line = old(self).buffer@.skip(1);
                match r {
                    Ok(data) => {
                        &&& old(self).buffer@.len() >= 1
                        &&& if old(self).buffer@[0] == 43 || old(self).buffer@[0] == 45 {
                            data@ == line && *final(self) == *old(self)
                        } else {
                            &&& old(self).buffer@[0] == 36
                            &&& (spec_parse_i64(line) matches Some(x) && x >= 0 && data@
                                == s.subrange(p, p + x) && final(self).pos == p + x + 2)
                        }
                    },
                    Err(e) => {
                        ||| (old(self).buffer@.len() == 0 && (e matches Error::InvalidFormat(b)
                            && b == 13) && *final(self) == *old(self))
                        ||| (old(self).buffer@.len() >= 1 && old(self).buffer@[0] == 36
                            && (match e {
                            Error::ExpectedBulkString => spec_parse_i64(line) == Some(-1i64)
                                && *final(self) == *old(self),
                            Error::ParseInt => spec_parse_i64(line) is None && *final(self)
                                == *old(self),
                            Error::InvalidLen => (spec_parse_i64(line) matches Some(x) && x
                                != -1),
                            Error::Eof => (spec_parse_i64(line) matches Some(x) && x >= 0 && p
                                + x + 2 > s.len()) && *final(self) == *old(self),
                            _ => false,
                        }))
                        ||| (old(self).buffer@.len() >= 1 && !(old(self).buffer@[0] == 36 || old(
                            self,
                        ).buffer@[0] == 43 || old(self).buffer@[0] == 45) && (e matches
                            Error::InvalidFormat(b) && b == old(self).buffer@[0]) && *final(self)
                            == *old(self))
                    },
                }
            }),
    {
        if self.buffer.len() == 0 {
            return Err(Error::InvalidFormat(13));
        }
        let b0 = self.buffer[0];
        if b0 == 36 {
            match self.parse_bulk_string() {
                Ok(Some(data)) => Ok(data),
                Ok(None) => Err(Error::ExpectedBulkString),
                Err(e) => Err(e),
            }
        } else if b0 == 43 || b0 == 45 {
            let blen = self.buffer.len();
            let data = slice_to_vec(slice_subrange(self.buffer.as_slice(), 1, blen));
            Ok(data)
        } else {
            Err(Error::InvalidFormat(b0))
        }
    }
}

} // verus!
