//! The ping request and its response, with their wire forms.
//!
//! A ping is framed as a two-element array: the bulk string `PING`
//! and either the message or the null bulk string.  The response is a
//! single bulk string — `PONG`, or the echoed message.

use crate::de::lemma_lf_at_unique;
use crate::de::lf_at;
use crate::de::Deserializer;
use crate::num::all_dec_digits;
use crate::num::dec_digits;
use crate::num::dec_value;
use crate::num::lemma_dec_digits_value;
use crate::num::spec_parse_i64;
use crate::resp::Error;
use crate::ser::resp_array_header;
use crate::ser::resp_bulk;
use crate::ser::resp_null;
use crate::ser::upper_seq;
use crate::ser::Serializer;
use vstd::prelude::*;
use vstd::slice::slice_subrange;
use vstd::slice::slice_to_vec;

verus! {

/// A ping request: optionally carries a message to echo.
pub struct Ping {
    pub msg: Option<Vec<u8>>,
}

impl Ping {
    /// A bare ping.
    pub fn empty() -> (p: Ping)
        ensures
            p.msg is None,
    {
        Ping { msg: None }
    }

    /// A ping that asks for `msg` back.
    pub fn with_msg(msg: Vec<u8>) -> (p: Ping)
        ensures
            (p.msg matches Some(m) && m@ == msg@),
    {
        Ping { msg: Some(msg) }
    }
}

/// The answer to a ping: `PONG`, or the message echoed back.
pub enum PingResponse {
    Pong,
    Echo(Vec<u8>),
}

/// The bytes of the command name `PING`.
pub open spec fn ping_name() -> Seq<u8> {
    seq![80u8, 73u8, 78u8, 71u8]
}

/// The bytes of the plain response `PONG`.
pub open spec fn pong_name() -> Seq<u8> {
    seq![80u8, 79u8, 78u8, 71u8]
}

/// The fixed prefix of every ping frame: the array header and the
/// command name.
pub open spec fn ping_prefix() -> Seq<u8> {
    resp_array_header(2) + resp_bulk(ping_name())
}

/// The whole frame of a ping.
pub open spec fn ping_wire(msg: Option<Seq<u8>>) -> Seq<u8> {
    match msg {
        None => ping_prefix() + resp_null(),
        Some(m) => ping_prefix() + resp_bulk(m),
    }
}

/// The whole frame of a response.
pub open spec fn ping_response_wire(r: PingResponse) -> Seq<u8> {
    match r {
        PingResponse::Pong => resp_bulk(pong_name()),
        PingResponse::Echo(m) => resp_bulk(m@),
    }
}

/// Serializes a ping: the struct frame for one field named `Ping`,
/// then the message or the null value.
pub fn ping_to_bytes(p: &Ping) -> (out: Vec<u8>)
    ensures
        out@ == ping_wire(match p.msg {
            Some(m) => Some(m@),
            None => None,
        }),
{
    let mut s = Serializer::new();
    let mut name: Vec<u8> = Vec::new();
    name.push(80);
    name.push(105);
    name.push(110);
    name.push(103);
    s.serialize_struct(name.as_slice(), 1);
    proof {
        assert(upper_seq(name@) =~= ping_name());
    }
    match &p.msg {
        None => s.serialize_none(),
        Some(m) => s.serialize_bytes(m.as_slice()),
    }
    proof {
        assert(s.writer@ =~= ping_wire(
            match p.msg {
                Some(m) => Some(m@),
                None => None,
            },
        ));
    }
    s.writer
}

/// Serializes a response: the uppercased variant name for `Pong`, the
/// echoed bytes for `Echo`.
pub fn ping_response_to_bytes(r: &PingResponse) -> (out: Vec<u8>)
    ensures
        out@ == ping_response_wire(*r),
{
    let mut s = Serializer::new();
    match r {
        PingResponse::Pong => {
            let mut name: Vec<u8> = Vec::new();
            name.push(80);
            name.push(111);
            name.push(110);
            name.push(103);
            s.serialize_unit_variant(name.as_slice());
            proof {
                assert(upper_seq(name@) =~= pong_name());
                assert(s.writer@ =~= ping_response_wire(*r));
            }
        },
        PingResponse::Echo(m) => {
            s.serialize_bytes(m.as_slice());
            proof {
                assert(s.writer@ =~= ping_response_wire(*r));
            }
        },
    }
    s.writer
}

/// The concrete content of a frame that starts with the ping prefix.
proof fn lemma_ping_prefix_bytes(win: Seq<u8>)
    requires
        win.len() >= 14,
        win.subrange(0, 14) == ping_prefix(),
    ensures
        win[0] == 42 && win[1] == 50 && win[2] == 13 && win[3] == 10,
        win[4] == 36 && win[5] == 52 && win[6] == 13 && win[7] == 10,
        win[8] == 80 && win[9] == 73 && win[10] == 78 && win[11] == 71,
        win[12] == 13 && win[13] == 10,
        lf_at(win, 0, 3),
        lf_at(win, 4, 7),
        win.subrange(0, 2) == seq![42u8, 50u8],
        win.subrange(4, 6) == seq![36u8, 52u8],
        win.subrange(8, 12) == ping_name(),
        spec_parse_i64(seq![50u8]) == Some(2i64),
        spec_parse_i64(seq![52u8]) == Some(4i64),
{
    let pre = ping_prefix();
    assert(dec_digits(2) == seq![50u8]);
    assert(dec_digits(4) == seq![52u8]);
    assert(pre =~= seq![
        42u8,
        50u8,
        13u8,
        10u8,
        36u8,
        52u8,
        13u8,
        10u8,
        80u8,
        73u8,
        78u8,
        71u8,
        13u8,
        10u8,
    ]);
    assert(forall|i: int| 0 <= i < 14 ==> win[i] == #[trigger] win.subrange(0, 14)[i]);
    assert(win.subrange(0, 2) =~= seq![42u8, 50u8]);
    assert(win.subrange(4, 6) =~= seq![36u8, 52u8]);
    assert(win.subrange(8, 12) =~= ping_name());
    assert(all_dec_digits(seq![50u8]));
    assert(dec_value(Seq::<u8>::empty()) == 0);
    assert(seq![50u8].drop_last() =~= Seq::<u8>::empty());
    assert(seq![50u8].last() == 50u8);
    assert(dec_value(seq![50u8]) == dec_value(seq![50u8].drop_last()) * 10 + (seq![50u8].last()
        - 48));
    assert(dec_value(seq![50u8]) == 2);
    assert(all_dec_digits(seq![52u8]));
    assert(seq![52u8].drop_last() =~= Seq::<u8>::empty());
    assert(seq![52u8].last() == 52u8);
    assert(dec_value(seq![52u8]) == dec_value(seq![52u8].drop_last()) * 10 + (seq![52u8].last()
        - 48));
    assert(dec_value(seq![52u8]) == 4);
}

/// A null-message frame past its prefix: `$-1` and the delimiter.
proof fn lemma_ping_wire_none(win: Seq<u8>)
    requires
        win == ping_wire(None),
    ensures
        win.len() == 19,
        win.subrange(0, 14) == ping_prefix(),
        win[14] == 36 && win[15] == 45 && win[16] == 49 && win[17] == 13 && win[18] == 10,
        lf_at(win, 14, 18),
        win.subrange(14, 17) == seq![36u8, 45u8, 49u8],
{
    assert(win.subrange(0, 14) =~= ping_prefix());
    assert(forall|i: int| 0 <= i < 5 ==> win[14 + i] == #[trigger] resp_null()[i]);
    assert(win.subrange(14, 17) =~= seq![36u8, 45u8, 49u8]);
}

/// A message-carrying frame past its prefix: the bulk header of the
/// message's length, the message, the delimiter.
proof fn lemma_ping_wire_some(win: Seq<u8>, m: Seq<u8>)
    requires
        win == ping_wire(Some(m)),
    ensures
        ({
            let dd = dec_digits(m.len());
            let dlen = dd.len() as int;
            let mlen = m.len() as int;
            &&& win.len() == 19 + dlen + mlen
            &&& win.subrange(0, 14) == ping_prefix()
            &&& win[14] == 36
            &&& win.subrange(15, 15 + dlen) == dd
            &&& win[15 + dlen] == 13
            &&& win[16 + dlen] == 10
            &&& lf_at(win, 14, 16 + dlen)
            &&& win.subrange(14, 15 + dlen) == seq![36u8] + dd
            &&& all_dec_digits(dd)
            &&& dec_value(dd) == mlen
            &&& dd[0] != 45
            &&& spec_parse_i64(dd) == (if mlen <= i64::MAX {
                Some(mlen as i64)
            } else {
                None::<i64>
            })
            &&& win.subrange(17 + dlen, 17 + dlen + mlen) == m
            &&& win[17 + dlen + mlen] == 13
            &&& win[18 + dlen + mlen] == 10
        }),
{
    let dd = dec_digits(m.len());
    let dlen = dd.len() as int;
    let mlen = m.len() as int;
    lemma_dec_digits_value(m.len());
    let bulk = resp_bulk(m);
    assert(win =~= ping_prefix() + bulk);
    assert(win.subrange(0, 14) =~= ping_prefix());
    assert(forall|i: int| 0 <= i < bulk.len() ==> win[14 + i] == #[trigger] bulk[i]);
    assert(bulk[0] == 36);
    assert(forall|i: int| 0 <= i < dlen ==> bulk[1 + i] == #[trigger] dd[i]);
    assert(win.subrange(15, 15 + dlen) =~= dd);
    assert(bulk[1 + dlen] == 13);
    assert(bulk[2 + dlen] == 10);
    assert(forall|i: int| 0 <= i < mlen ==> bulk[3 + dlen + i] == #[trigger] m[i]);
    assert(win.subrange(17 + dlen, 17 + dlen + mlen) =~= m);
    assert(bulk[3 + dlen + mlen] == 13);
    assert(bulk[4 + dlen + mlen] == 10);
    assert(win.subrange(14, 15 + dlen) =~= seq![36u8] + dd);
    assert(is_dec_digit_seq_no_lf(dd));
    assert forall|t: int| 14 <= t < 16 + dlen implies #[trigger] win[t] != 10 by {
        if t == 14 {
        } else if t < 15 + dlen {
            assert(win[t] == dd[t - 15]);
            assert(48 <= dd[t - 15] <= 57);
        } else {
            assert(win[t] == 13);
        }
    }
    assert(dd[0] != 45) by {
        assert(48 <= dd[0] <= 57);
    }
    if mlen <= i64::MAX {
        assert(spec_parse_i64(dd) == Some(mlen as i64));
    } else {
        assert(spec_parse_i64(dd) is None);
    }
}

/// Digits contain no line feed.
pub open spec fn is_dec_digit_seq_no_lf(dd: Seq<u8>) -> bool {
    forall|i: int| 0 <= i < dd.len() ==> #[trigger] dd[i] != 10
}

/// Reads a ping frame back.  The contract pins the two frames the
/// serializer emits: parsing `ping_to_bytes` of any ping yields that
/// ping back.  (Frames the protocol also tolerates — a simple-string
/// message, redundant digits in a length — decode as well, but are
/// not promised here.)
pub fn ping_from_bytes(input: Vec<u8>) -> (r: Result<Ping, Error>)
    ensures
        input@ == ping_wire(None) ==> (r matches Ok(p) && p.msg is None),
        forall|m: Seq<u8>|
            m.len() <= i64::MAX && input@ == ping_wire(Some(m)) ==> (r matches Ok(p) && (p.msg
                matches Some(mm) && mm@ == m)),
{
    let ghost win = input@;
    let ghost h0 = win.len() >= 14 && win.subrange(0, 14) == ping_prefix();
    proof {
        if win == ping_wire(None) {
            lemma_ping_wire_none(win);
            assert(h0);
        }
        assert forall|m: Seq<u8>| win == ping_wire(Some(m)) implies h0 by {
            lemma_ping_wire_some(win, m);
        }
    }
    let mut de = Deserializer::new(input);
    // Materializes the input length bound the refutations need.
    let _wlen = de.input.len();
    match de.read_next_item() {
        Ok(()) => {},
        Err(e) => {
            proof {
                assert(!h0) by {
                    if h0 {
                        lemma_ping_prefix_bytes(win);
                        lemma_lf_at_unique(win, 0, 3);
                    }
                }
            }
            return Err(e);
        },
    }
    proof {
        assert(h0 ==> de.buffer@ == seq![42u8, 50u8] && de.pos == 4) by {
            if h0 {
                lemma_ping_prefix_bytes(win);
                lemma_lf_at_unique(win, 0, 3);
            }
        }
    }
    if de.buffer.len() == 0 || de.buffer[0] != 42 {
        proof {
            assert(!h0);
        }
        return Err(Error::ExpectedArray);
    }
    let ghost line1 = de.buffer@.skip(1);
    proof {
        assert(h0 ==> spec_parse_i64(line1) == Some(2i64)) by {
            if h0 {
                lemma_ping_prefix_bytes(win);
                assert(line1 =~= seq![50u8]);
            }
        }
    }
    let len = match de.parse_len() {
        Ok(Some(l)) => l,
        Ok(None) => {
            proof {
                assert(!h0);
            }
            return Err(Error::ExpectedArray);
        },
        Err(e) => {
            proof {
                assert(!h0);
            }
            return Err(e);
        },
    };
    proof {
        assert(h0 ==> len == 2);
    }
    if len == 0 {
        proof {
            assert(!h0);
        }
        return Err(Error::InvalidCommand);
    }
    let ghost d1 = de;
    match de.read_next_item() {
        Ok(()) => {},
        Err(e) => {
            proof {
                assert(!h0) by {
                    if h0 {
                        lemma_ping_prefix_bytes(win);
                        lemma_lf_at_unique(win, 4, 7);
                    }
                }
            }
            return Err(e);
        },
    }
    proof {
        assert(h0 ==> de.buffer@ == seq![36u8, 52u8] && de.pos == 8) by {
            if h0 {
                lemma_ping_prefix_bytes(win);
                lemma_lf_at_unique(win, 4, 7);
            }
        }
    }
    if de.buffer.len() == 0 {
        proof {
            assert(!h0);
        }
        return Err(Error::ExpectedBulkString);
    }
    let ghost line2 = de.buffer@.skip(1);
    let ghost d2 = de;
    proof {
        assert(h0 ==> spec_parse_i64(line2) == Some(4i64)) by {
            if h0 {
                lemma_ping_prefix_bytes(win);
                assert(line2 =~= seq![52u8]);
            }
        }
    }
    let cmd = match de.parse_bulk_string() {
        Ok(Some(c)) => c,
        Ok(None) => {
            proof {
                assert(!h0);
            }
            return Err(Error::ExpectedBulkString);
        },
        Err(e) => {
            proof {
                assert(win != ping_wire(None)) by {
                    if win == ping_wire(None) {
                        lemma_ping_wire_none(win);
                        lemma_ping_prefix_bytes(win);
                        assert(h0);
                        assert(d2.buffer@ == seq![36u8, 52u8]);
                        assert(d2.pos == 8);
                        assert(spec_parse_i64(d2.buffer@.skip(1)) == Some(4i64));
                        assert(win[12] == 13 && win[13] == 10);
                        assert(win.len() == 19);
                        assert(false);
                    }
                }
                assert forall|m: Seq<u8>|
                    m.len() <= i64::MAX && win == ping_wire(Some(m)) implies false by {
                    lemma_ping_wire_some(win, m);
                    lemma_ping_prefix_bytes(win);
                    assert(h0);
                    assert(d2.buffer@ == seq![36u8, 52u8]);
                    assert(d2.pos == 8);
                    assert(spec_parse_i64(d2.buffer@.skip(1)) == Some(4i64));
                    assert(win[12] == 13 && win[13] == 10);
                    assert(win.len() >= 19);
                }
            }
            return Err(e);
        },
    };
    proof {
        assert(h0 ==> cmd@ == ping_name() && de.pos == 14) by {
            if h0 {
                lemma_ping_prefix_bytes(win);
            }
        }
    }
    if !(cmd.len() == 4 && cmd[0] == 80 && cmd[1] == 73 && cmd[2] == 78 && cmd[3] == 71) {
        proof {
            assert(!h0) by {
                if h0 {
                    lemma_ping_prefix_bytes(win);
                    assert(cmd@[0] == ping_name()[0]);
                    assert(cmd@[1] == ping_name()[1]);
                    assert(cmd@[2] == ping_name()[2]);
                    assert(cmd@[3] == ping_name()[3]);
                }
            }
        }
        return Err(Error::InvalidCommand);
    }
    if len != 2 {
        proof {
            assert(!h0);
        }
        return Err(Error::InvalidLen);
    }
    // The single field: the optional message.
    let ghost d3 = de;
    match de.read_next_item() {
        Ok(()) => {},
        Err(e) => {
            proof {
                assert(win != ping_wire(None)) by {
                    if win == ping_wire(None) {
                        lemma_ping_wire_none(win);
                        lemma_lf_at_unique(win, 14, 18);
                    }
                }
                assert forall|m: Seq<u8>|
                    m.len() <= i64::MAX && win == ping_wire(Some(m)) implies false by {
                    lemma_ping_wire_some(win, m);
                    lemma_lf_at_unique(win, 14, 16 + dec_digits(m.len()).len() as int);
                }
            }
            return Err(e);
        },
    }
    proof {
        assert(win == ping_wire(None) ==> de.buffer@ == seq![36u8, 45u8, 49u8]) by {
            if win == ping_wire(None) {
                lemma_ping_wire_none(win);
                lemma_lf_at_unique(win, 14, 18);
            }
        }
    }
    let is_null = de.buffer.len() >= 3 && (de.buffer[0] == 36 || de.buffer[0] == 42)
        && de.buffer[1] == 45 && de.buffer[2] == 49;
    proof {
        assert forall|m: Seq<u8>|
            m.len() <= i64::MAX && win == ping_wire(Some(m)) implies !is_null && de.buffer@
            == seq![36u8] + dec_digits(m.len()) && de.pos == 17 + dec_digits(m.len()).len() as int
            by {
            lemma_ping_wire_some(win, m);
            lemma_lf_at_unique(win, 14, 16 + dec_digits(m.len()).len() as int);
            assert(de.buffer@ =~= seq![36u8] + dec_digits(m.len()));
            assert(de.buffer@[1] == dec_digits(m.len())[0]);
        }
    }
    if is_null {
        return Ok(Ping { msg: None });
    }
    if de.buffer.len() == 0 {
        proof {
            assert(win != ping_wire(None));
        }
        return Err(Error::InvalidFormat(13));
    }
    let b0 = de.buffer[0];
    if b0 == 36 {
        let ghost pre = de;
        match de.parse_bulk_string() {
            Ok(Some(data)) => {
                proof {
                    assert forall|m: Seq<u8>|
                        m.len() <= i64::MAX && win == ping_wire(Some(m)) implies data@ == m by {
                        lemma_ping_wire_some(win, m);
                        assert(pre.buffer@.skip(1) =~= dec_digits(m.len()));
                    }
                }
                Ok(Ping { msg: Some(data) })
            },
            Ok(None) => {
                proof {
                    assert forall|m: Seq<u8>|
                        m.len() <= i64::MAX && win == ping_wire(Some(m)) implies false by {
                        lemma_ping_wire_some(win, m);
                        assert(pre.buffer@.skip(1) =~= dec_digits(m.len()));
                    }
                }
                Err(Error::ExpectedBulkString)
            },
            Err(e) => {
                proof {
                    assert forall|m: Seq<u8>|
                        m.len() <= i64::MAX && win == ping_wire(Some(m)) implies false by {
                        lemma_ping_wire_some(win, m);
                        lemma_lf_at_unique(win, 14, 16 + dec_digits(m.len()).len() as int);
                        assert(h0);
                        assert(d3.pos == 14);
                        assert(pre.buffer@ == seq![36u8] + dec_digits(m.len()));
                        assert(pre.pos == 17 + dec_digits(m.len()).len() as int);
                        assert(pre.buffer@.skip(1) =~= dec_digits(m.len()));
                        assert(pre.pos + m.len() + 2 == win.len());
                    }
                }
                Err(e)
            },
        }
    } else if b0 == 43 || b0 == 45 {
        let blen = de.buffer.len();
        let data = slice_to_vec(slice_subrange(de.buffer.as_slice(), 1, blen));
        Ok(Ping { msg: Some(data) })
    } else {
        Err(Error::InvalidFormat(b0))
    }
}

/// Reads a response frame back: `PONG` is the plain answer, any other
/// bulk string is an echo.
pub fn ping_response_from_bytes(input: Vec<u8>) -> (r: Result<PingResponse, Error>)
    ensures
        forall|m: Seq<u8>|
            m.len() <= i64::MAX && input@ == resp_bulk(m) ==> (r matches Ok(pr) && (if m
                == pong_name() {
                pr is Pong
            } else {
                pr matches PingResponse::Echo(e) && e@ == m
            })),
{
    let ghost win = input@;
    proof {
        assert forall|m: Seq<u8>|
            m.len() <= i64::MAX && win == resp_bulk(m) implies lf_at(
            win,
            0,
            2 + dec_digits(m.len()).len() as int,
        ) by {
            lemma_bulk_wire(win, m);
        }
    }
    let mut de = Deserializer::new(input);
    // Materializes the input length bound the refutations need.
    let _wlen = de.input.len();
    match de.read_next_item() {
        Ok(()) => {},
        Err(e) => {
            proof {
                assert forall|m: Seq<u8>|
                    m.len() <= i64::MAX && win == resp_bulk(m) implies false by {
                    lemma_bulk_wire(win, m);
                    lemma_lf_at_unique(win, 0, 2 + dec_digits(m.len()).len() as int);
                }
            }
            return Err(e);
        },
    }
    if de.buffer.len() == 0 {
        proof {
            assert forall|m: Seq<u8>|
                m.len() <= i64::MAX && win == resp_bulk(m) implies false by {
                lemma_bulk_wire(win, m);
                lemma_lf_at_unique(win, 0, 2 + dec_digits(m.len()).len() as int);
            }
        }
        return Err(Error::InvalidFormat(13));
    }
    let ghost pre = de;
    let b0 = de.buffer[0];
    let data = if b0 == 36 {
        match de.parse_bulk_string() {
            Ok(Some(d)) => d,
            Ok(None) => {
                proof {
                    assert forall|m: Seq<u8>|
                        m.len() <= i64::MAX && win == resp_bulk(m) implies false by {
                        lemma_bulk_wire(win, m);
                        lemma_lf_at_unique(win, 0, 2 + dec_digits(m.len()).len() as int);
                        assert(pre.buffer@.skip(1) =~= dec_digits(m.len()));
                    }
                }
                return Err(Error::ExpectedBulkString);
            },
            Err(e) => {
                proof {
                    assert forall|m: Seq<u8>|
                        m.len() <= i64::MAX && win == resp_bulk(m) implies false by {
                        lemma_bulk_wire(win, m);
                        lemma_lf_at_unique(win, 0, 2 + dec_digits(m.len()).len() as int);
                        assert(pre.buffer@.skip(1) =~= dec_digits(m.len()));
                        assert(pre.pos + m.len() + 2 <= win.len());
                    }
                }
                return Err(e);
            },
        }
    } else if b0 == 43 || b0 == 45 {
        let blen = de.buffer.len();
        slice_to_vec(slice_subrange(de.buffer.as_slice(), 1, blen))
    } else {
        proof {
            assert forall|m: Seq<u8>|
                m.len() <= i64::MAX && win == resp_bulk(m) implies false by {
                lemma_bulk_wire(win, m);
                lemma_lf_at_unique(win, 0, 2 + dec_digits(m.len()).len() as int);
            }
        }
        return Err(Error::InvalidFormat(b0));
    };
    proof {
        assert forall|m: Seq<u8>|
            m.len() <= i64::MAX && win == resp_bulk(m) implies data@ == m by {
            lemma_bulk_wire(win, m);
            lemma_lf_at_unique(win, 0, 2 + dec_digits(m.len()).len() as int);
            assert(pre.buffer@.skip(1) =~= dec_digits(m.len()));
        }
    }
    if data.len() == 4 && data[0] == 80 && data[1] == 79 && data[2] == 78 && data[3] == 71 {
        proof {
            assert(data@ =~= pong_name());
        }
        Ok(PingResponse::Pong)
    } else {
        proof {
            assert forall|m: Seq<u8>|
                m.len() <= i64::MAX && win == resp_bulk(m) implies m != pong_name() by {
                if m == pong_name() {
                    assert(data@[0] == 80 && data@[1] == 79 && data@[2] == 78 && data@[3] == 71);
                }
            }
        }
        Ok(PingResponse::Echo(data))
    }
}

/// A bulk frame laid out from its start: header line, payload,
/// delimiter.
proof fn lemma_bulk_wire(win: Seq<u8>, m: Seq<u8>)
    requires
        win == resp_bulk(m),
    ensures
        ({
            let dd = dec_digits(m.len());
            let dlen = dd.len() as int;
            let mlen = m.len() as int;
            &&& win.len() == 5 + dlen + mlen
            &&& win[0] == 36
            &&& win.subrange(1, 1 + dlen) == dd
            &&& win[1 + dlen] == 13
            &&& win[2 + dlen] == 10
            &&& lf_at(win, 0, 2 + dlen)
            &&& win.subrange(0, 1 + dlen) == seq![36u8] + dd
            &&& all_dec_digits(dd)
            &&& dec_value(dd) == mlen
            &&& dd[0] != 45
            &&& spec_parse_i64(dd) == (if mlen <= i64::MAX {
                Some(mlen as i64)
            } else {
                None::<i64>
            })
            &&& win.subrange(3 + dlen, 3 + dlen + mlen) == m
            &&& win[3 + dlen + mlen] == 13
            &&& win[4 + dlen + mlen] == 10
        }),
{
    let dd = dec_digits(m.len());
    let dlen = dd.len() as int;
    let mlen = m.len() as int;
    lemma_dec_digits_value(m.len());
    assert(win[0] == 36);
    assert(forall|i: int| 0 <= i < dlen ==> win[1 + i] == #[trigger] dd[i]);
    assert(win.subrange(1, 1 + dlen) =~= dd);
    assert(win.subrange(0, 1 + dlen) =~= seq![36u8] + dd);
    assert(forall|i: int| 0 <= i < mlen ==> win[3 + dlen + i] == #[trigger] m[i]);
    assert(win.subrange(3 + dlen, 3 + dlen + mlen) =~= m);
    assert forall|t: int| 0 <= t < 2 + dlen implies #[trigger] win[t] != 10 by {
        if t == 0 {
        } else if t < 1 + dlen {
            assert(win[t] == dd[t - 1]);
            assert(48 <= dd[t - 1] <= 57);
        } else {
            assert(win[t] == 13);
        }
    }
    assert(dd[0] != 45) by {
        assert(48 <= dd[0] <= 57);
    }
    if mlen <= i64::MAX {
        assert(spec_parse_i64(dd) == Some(mlen as i64));
    } else {
        assert(spec_parse_i64(dd) is None);
    }
}

} // verus!
