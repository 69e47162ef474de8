//! Values of the textual line protocol and their parser.
//!
//! A value is framed by its first byte — `+` simple string, `-` error,
//! `:` integer, `$` length-prefixed bulk string, `*` array — with CRLF
//! delimiters; `$-1` and `*-1` denote the null value.  The grammar is
//! written out as the spec functions [`spec_value`] and [`spec_elems`],
//! and the parser returns exactly what they read.

use crate::num::dec_to_u64;
use crate::num::spec_parse_i64;
use crate::num::spec_parse_u32;
use vstd::prelude::*;
use vstd::slice::slice_subrange;
use vstd::slice::slice_to_vec;

verus! {

broadcast use vstd::std_specs::vec::group_vec_axioms;

/// Errors of the line-protocol codec, shared by its serializer and
/// its deserializer.
#[derive(Debug, PartialEq, Eq)]
pub enum Error {
    /// Length of sequence not available during serialization.
    LenNotAvailable,
    /// Unexpected end of input.
    Eof,
    /// A decimal field failed to parse as an integer.
    ParseInt,
    /// Incorrect length indication encountered.
    InvalidLen,
    /// Unexpected byte encountered in the input.
    InvalidFormat(u8),
    /// The array read where a command was expected cannot be one.
    InvalidCommand,
    /// Did not encounter an array when one was expected.
    ExpectedArray,
    /// Did not encounter an integer when one was expected.
    ExpectedInt,
    /// Did not encounter a bulk string when one was expected.
    ExpectedBulkString,
    /// Did not encounter a simple string when one was expected.
    ExpectedSimpleString,
}

/// One protocol value.  Strings are byte strings: the protocol carries
/// arbitrary bytes, UTF-8 only by convention.
#[derive(Debug, PartialEq, Eq)]
pub enum RedisValue {
    Null,
    Str(Vec<u8>),
    Error(Vec<u8>),
    Array(Vec<RedisValue>),
    Int(i64),
}

/// The mathematical shape of a [`RedisValue`]: byte and value
/// sequences in place of vectors.
pub enum RespData {
    Null,
    Str(Seq<u8>),
    Error(Seq<u8>),
    Array(Seq<RespData>),
    Int(i64),
}

/// The model of a value: vectors replaced by sequences, recursively.
pub open spec fn resp_model(v: RedisValue) -> RespData
    decreases v,
{
    match v {
        RedisValue::Null => RespData::Null,
        RedisValue::Str(b) => RespData::Str(b@),
        RedisValue::Error(b) => RespData::Error(b@),
        RedisValue::Int(x) => RespData::Int(x),
        RedisValue::Array(vs) => RespData::Array(resp_models(vs@)),
    }
}

/// The models of a run of values, elementwise.
pub open spec fn resp_models(vs: Seq<RedisValue>) -> Seq<RespData>
    decreases vs,
{
    if vs.len() == 0 {
        Seq::empty()
    } else {
        seq![resp_model(vs[0])] + resp_models(vs.subrange(1, vs.len() as int))
    }
}

impl View for RedisValue {
    type V = RespData;

    open spec fn view(&self) -> RespData {
        resp_model(*self)
    }
}

/// `j` is the first position at or after `pos` where a CRLF pair
/// starts, and the pair fits in `s`.
pub open spec fn crlf_at(s: Seq<u8>, pos: int, j: int) -> bool {
    &&& pos <= j
    &&& j + 2 <= s.len()
    &&& s[j] == 13
    &&& s[j + 1] == 10
    &&& forall|t: int| pos <= t < j ==> !(#[trigger] s[t] == 13 && s[t + 1] == 10)
}

/// Whether any CRLF pair starts at or after `pos`.
pub open spec fn has_crlf(s: Seq<u8>, pos: int) -> bool {
    exists|j: int| crlf_at(s, pos, j)
}

/// The first CRLF position at or after `pos`.
pub open spec fn crlf_pos(s: Seq<u8>, pos: int) -> int {
    choose|j: int| crlf_at(s, pos, j)
}

/// The first CRLF position is unique.
pub proof fn lemma_crlf_at_unique(s: Seq<u8>, pos: int, j: int)
    requires
        crlf_at(s, pos, j),
    ensures
        has_crlf(s, pos),
        crlf_pos(s, pos) == j,
{
    let j2 = crlf_pos(s, pos);
    assert(crlf_at(s, pos, j2));
    if j2 < j {
        assert(s[j2] == 13 && s[j2 + 1] == 10);
        assert(false);
    } else if j < j2 {
        assert(s[j] == 13 && s[j + 1] == 10);
        assert(false);
    }
}

/// Reads one value starting at byte `pos` of `s`: the value and the
/// number of bytes it occupies.  `None` when no whole value starts
/// there.
pub open spec fn spec_value(s: Seq<u8>, pos: int) -> Option<(RespData, int)>
    decreases s.len() - pos, 0int,
{
    if pos < 0 || pos >= s.len() {
        None
    } else {
        let b = s[pos];
        if b == 43 || b == 45 {
            // '+' simple string / '-' error: the line up to CRLF.
            if has_crlf(s, pos + 1) {
                let j = crlf_pos(s, pos + 1);
                if b == 43 {
                    Some((RespData::Str(s.subrange(pos + 1, j)), j + 2 - pos))
                } else {
                    Some((RespData::Error(s.subrange(pos + 1, j)), j + 2 - pos))
                }
            } else {
                None
            }
        } else if b == 58 {
            // ':' integer: a signed decimal line.
            if has_crlf(s, pos + 1) {
                let j = crlf_pos(s, pos + 1);
                match spec_parse_i64(s.subrange(pos + 1, j)) {
                    Some(x) => Some((RespData::Int(x), j + 2 - pos)),
                    None => None,
                }
            } else {
                None
            }
        } else if b == 36 {
            // '$' bulk string: a length line, that many bytes, CRLF;
            // "$-1" alone is null.
            if has_crlf(s, pos + 1) {
                let j = crlf_pos(s, pos + 1);
                let line = s.subrange(pos + 1, j);
                match spec_parse_u32(line) {
                    Some(len) => {
                        let start = j + 2;
                        let data_end = start + len;
                        if data_end + 2 <= s.len() && s[data_end] == 13 && s[data_end + 1]
                            == 10 {
                            Some((RespData::Str(s.subrange(start, data_end)), data_end + 2 - pos))
                        } else {
                            None
                        }
                    },
                    None => {
                        if line == seq![45u8, 49u8] {
                            Some((RespData::Null, j + 2 - pos))
                        } else {
                            None
                        }
                    },
                }
            } else {
                None
            }
        } else if b == 42 {
            // '*' array: a length line then that many values; "*-1"
            // alone is null.
            if has_crlf(s, pos + 1) {
                let j = crlf_pos(s, pos + 1);
                let line = s.subrange(pos + 1, j);
                match spec_parse_u32(line) {
                    Some(len) => match spec_elems(s, j + 2, len as int) {
                        Some((ds, c)) => Some((RespData::Array(ds), j + 2 - pos + c)),
                        None => None,
                    },
                    None => {
                        if line == seq![45u8, 49u8] {
                            Some((RespData::Null, j + 2 - pos))
                        } else {
                            None
                        }
                    },
                }
            } else {
                None
            }
        } else {
            None
        }
    }
}

/// Reads `k` consecutive values starting at `pos`: the values and the
/// total bytes they occupy.
pub open spec fn spec_elems(s: Seq<u8>, pos: int, k: int) -> Option<(Seq<RespData>, int)>
    decreases s.len() - pos, k,
{
    if k <= 0 {
        Some((Seq::empty(), 0))
    } else if pos < 0 || pos > s.len() {
        None
    } else {
        match spec_value(s, pos) {
            None => None,
            Some((d, c)) => {
                if c <= 0 || pos + c > s.len() {
                    // Unreachable: a parsed value occupies at least its
                    // marker and delimiter and stays inside `s`.
                    None
                } else {
                    match spec_elems(s, pos + c, k - 1) {
                        None => None,
                        Some((ds, c2)) => Some((seq![d] + ds, c + c2)),
                    }
                }
            },
        }
    }
}

/// Finds the first CRLF pair at or after `pos`.
fn find_crlf(s: &[u8], pos: usize) -> (r: Option<usize>)
    requires
        pos <= s@.len(),
    ensures
        match r {
            Some(j) => crlf_at(s@, pos as int, j as int),
            None => !has_crlf(s@, pos as int),
        },
{
    let n = s.len();
    let mut j: usize = pos;
    while n - j > 1
        invariant
            pos <= j,
            j <= n,
            n == s@.len(),
            forall|t: int| pos <= t < j ==> !(#[trigger] s@[t] == 13 && s@[t + 1] == 10),
        decreases n - j,
    {
        if s[j] == 13 && s[j + 1] == 10 {
            return Some(j);
        }
        j = j + 1;
    }
    proof {
        if has_crlf(s@, pos as int) {
            let j2 = crlf_pos(s@, pos as int);
            assert(crlf_at(s@, pos as int, j2));
            assert(s@[j2] == 13 && s@[j2 + 1] == 10);
        }
    }
    None
}

/// Reads a signed decimal from `s[from..to]`, exactly as
/// [`spec_parse_i64`] does.
pub fn parse_i64_range(s: &[u8], from: usize, to: usize) -> (r: Option<i64>)
    requires
        from <= to <= s@.len(),
    ensures
        r == spec_parse_i64(s@.subrange(from as int, to as int)),
{
    let ghost whole = s@.subrange(from as int, to as int);
    if from < to && s[from] == 45 {
        proof {
            assert(whole.skip(1) =~= s@.subrange(from + 1, to as int));
        }
        match dec_to_u64(s, from + 1, to, 9223372036854775808u64) {
            Some(mag) => {
                if mag == 9223372036854775808u64 {
                    Some(i64::MIN)
                } else {
                    Some(-(mag as i64))
                }
            },
            None => None,
        }
    } else {
        match dec_to_u64(s, from, to, 9223372036854775807u64) {
            Some(x) => Some(x as i64),
            None => None,
        }
    }
}

/// Parses one value from the start of `i`, returning it and the
/// number of bytes consumed — exactly the reading of [`spec_value`].
pub fn value(i: &[u8]) -> (r: Option<(RedisValue, usize)>)
    ensures
        match r {
            Some(p) => spec_value(i@, 0) == Some((p.0@, p.1 as int)),
            None => spec_value(i@, 0) is None,
        },
{
    value_at(i, 0)
}

/// Parses one value starting at `pos`.
#[verifier::rlimit(50)]
fn value_at(s: &[u8], pos: usize) -> (r: Option<(RedisValue, usize)>)
    requires
        pos <= s@.len(),
    ensures
        match r {
            Some(p) => spec_value(s@, pos as int) == Some((p.0@, p.1 as int)) && 0 < p.1 && pos
                + p.1 <= s@.len(),
            None => spec_value(s@, pos as int) is None,
        },
    decreases s@.len() - pos, 0int,
{
    let n = s.len();
    if pos >= n {
        return None;
    }
    let b = s[pos];
    if b == 43 || b == 45 {
        match find_crlf(s, pos + 1) {
            None => None,
            Some(j) => {
                proof {
                    lemma_crlf_at_unique(s@, pos as int + 1, j as int);
                }
                let data = slice_to_vec(slice_subrange(s, pos + 1, j));
                let used = j + 2 - pos;
                if b == 43 {
                    Some((RedisValue::Str(data), used))
                } else {
                    Some((RedisValue::Error(data), used))
                }
            },
        }
    } else if b == 58 {
        match find_crlf(s, pos + 1) {
            None => None,
            Some(j) => {
                proof {
                    lemma_crlf_at_unique(s@, pos as int + 1, j as int);
                }
                match parse_i64_range(s, pos + 1, j) {
                    Some(x) => Some((RedisValue::Int(x), j + 2 - pos)),
                    None => None,
                }
            },
        }
    } else if b == 36 {
        match find_crlf(s, pos + 1) {
            None => None,
            Some(j) => {
                proof {
                    lemma_crlf_at_unique(s@, pos as int + 1, j as int);
                }
                match dec_to_u64(s, pos + 1, j, 4294967295u64) {
                    Some(len64) => {
                        let len = len64 as usize;
                        let start = j + 2;
                        if len > n - start || 2 > n - start - len {
                            return None;
                        }
                        if s[start + len] == 13 && s[start + len + 1] == 10 {
                            let data = slice_to_vec(slice_subrange(s, start, start + len));
                            Some((RedisValue::Str(data), start + len + 2 - pos))
                        } else {
                            None
                        }
                    },
                    None => {
                        if j == pos + 3 && s[pos + 1] == 45 && s[pos + 2] == 49 {
                            proof {
                                assert(s@.subrange(pos + 1, j as int) =~= seq![45u8, 49u8]);
                            }
                            Some((RedisValue::Null, j + 2 - pos))
                        } else {
                            proof {
                                let line = s@.subrange(pos + 1, j as int);
                                if line == seq![45u8, 49u8] {
                                    assert(line.len() == 2);
                                    assert(s@[pos + 1] == line[0]);
                                    assert(s@[pos + 2] == line[1]);
                                }
                            }
                            None
                        }
                    },
                }
            },
        }
    } else if b == 42 {
        match find_crlf(s, pos + 1) {
            None => None,
            Some(j) => {
                proof {
                    lemma_crlf_at_unique(s@, pos as int + 1, j as int);
                }
                match dec_to_u64(s, pos + 1, j, 4294967295u64) {
                    Some(len64) => {
                        match elems_at(s, j + 2, len64) {
                            Some(p) => {
                                let (vs, c) = p;
                                Some((RedisValue::Array(vs), j + 2 - pos + c))
                            },
                            None => None,
                        }
                    },
                    None => {
                        if j == pos + 3 && s[pos + 1] == 45 && s[pos + 2] == 49 {
                            proof {
                                assert(s@.subrange(pos + 1, j as int) =~= seq![45u8, 49u8]);
                            }
                            Some((RedisValue::Null, j + 2 - pos))
                        } else {
                            proof {
                                let line = s@.subrange(pos + 1, j as int);
                                if line == seq![45u8, 49u8] {
                                    assert(line.len() == 2);
                                    assert(s@[pos + 1] == line[0]);
                                    assert(s@[pos + 2] == line[1]);
                                }
                            }
                            None
                        }
                    },
                }
            },
        }
    } else {
        None
    }
}

/// Parses `k` consecutive values starting at `pos`.
fn elems_at(s: &[u8], pos: usize, k: u64) -> (r: Option<(Vec<RedisValue>, usize)>)
    requires
        pos <= s@.len(),
    ensures
        match r {
            Some(p) => spec_elems(s@, pos as int, k as int) == Some(
                (resp_models(p.0@), p.1 as int),
            ) && pos + p.1 <= s@.len(),
            None => spec_elems(s@, pos as int, k as int) is None,
        },
    decreases s@.len() - pos, k,
{
    let n = s.len();
    if k == 0 {
        let vs: Vec<RedisValue> = Vec::new();
        proof {
            assert(resp_models(vs@) =~= Seq::<RespData>::empty());
        }
        Some((vs, 0))
    } else {
        match value_at(s, pos) {
            None => None,
            Some(p0) => {
                let (v, c) = p0;
                match elems_at(s, pos + c, k - 1) {
                    None => None,
                    Some(p) => {
                        let (mut vs, c2) = p;
                        let ghost tail = vs@;
                        vs.insert(0, v);
                        proof {
                            assert(vs@[0] == v);
                            assert(vs@.subrange(1, vs@.len() as int) =~= tail);
                            assert(resp_models(vs@) == seq![resp_model(v)] + resp_models(tail));
                        }
                        Some((vs, c + c2))
                    },
                }
            },
        }
    }
}

} // verus!
