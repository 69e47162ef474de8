//! Command records and their byte-level framing.
//!
//! The log is a concatenation of framed records with no delimiters.  A
//! record is a tag byte, a little-endian 64-bit key length, the key
//! bytes, and — for `Set` — a little-endian 64-bit value length followed
//! by the value bytes.  The framing is length-self-determining: parsing
//! a record from a stream consumes exactly the bytes the encoder wrote.

use vstd::bytes::lemma_auto_spec_u64_to_from_le_bytes;
use vstd::bytes::spec_u64_from_le_bytes;
use vstd::bytes::spec_u64_to_le_bytes;
use vstd::bytes::u64_from_le_bytes;
use vstd::bytes::u64_to_le_bytes;
use vstd::prelude::*;
use vstd::slice::slice_subrange;
use vstd::slice::slice_to_vec;

verus! {

/// Tag byte that opens a framed `Set` record.
pub const SET_TAG: u8 = 0;

/// Tag byte that opens a framed `Rm` record.
pub const RM_TAG: u8 = 1;

/// A command of the log: either a write of `value` under `key`, or the
/// removal of `key`.
#[derive(Debug)]
pub enum Command {
    Put { key: Vec<u8>, value: Vec<u8> },
    Rm { key: Vec<u8> },
}

/// The mathematical shape of a [`Command`]: byte sequences in place of
/// vectors.
pub enum CommandModel {
    Put { key: Seq<u8>, value: Seq<u8> },
    Rm { key: Seq<u8> },
}

impl View for Command {
    type V = CommandModel;

    open spec fn view(&self) -> CommandModel {
        match self {
            Command::Put { key, value } => (CommandModel::Put { key: key@, value: value@ }),
            Command::Rm { key } => (CommandModel::Rm { key: key@ }),
        }
    }
}

impl Command {
    /// Builds the record that stores `value` under `key`.
    pub fn set(key: Vec<u8>, value: Vec<u8>) -> (c: Command)
        ensures
            c@ == (CommandModel::Put { key: key@, value: value@ }),
    {
        Command::Put { key, value }
    }

    /// Builds the record that removes `key`.
    pub fn remove(key: Vec<u8>) -> (c: Command)
        ensures
            c@ == (CommandModel::Rm { key: key@ }),
    {
        Command::Rm { key }
    }
}

/// The position and length, in bytes, of one framed command inside the
/// log.  `pos + len` is the offset of the byte just after the record.
#[derive(Copy, Clone, PartialEq, Eq, Structural, Debug)]
pub struct CommandPos {
    pub pos: u64,
    pub len: u64,
}

/// Whether a command fits the frame: each field length must fit the
/// 64-bit length fields of the header.  Commands built from vectors
/// always do.
pub open spec fn cmd_ok(c: CommandModel) -> bool {
    match c {
        CommandModel::Put { key, value } => key.len() <= u64::MAX && value.len() <= u64::MAX,
        CommandModel::Rm { key } => key.len() <= u64::MAX,
    }
}

/// The exact bytes the encoder emits for a command.
pub open spec fn spec_encode(c: CommandModel) -> Seq<u8> {
    match c {
        CommandModel::Put { key, value } => seq![SET_TAG] + spec_u64_to_le_bytes(
            key.len() as u64,
        ) + key + spec_u64_to_le_bytes(value.len() as u64) + value,
        CommandModel::Rm { key } => seq![RM_TAG] + spec_u64_to_le_bytes(key.len() as u64) + key,
    }
}

/// Reads one framed record starting at byte `pos` of `log`: the command
/// and the number of bytes the record occupies.  `None` when no whole
/// record starts there.
pub open spec fn spec_parse_record(log: Seq<u8>, pos: int) -> Option<(CommandModel, int)> {
    if pos < 0 || pos + 9 > log.len() {
        None
    } else {
        let tag = log[pos];
        let klen = spec_u64_from_le_bytes(log.subrange(pos + 1, pos + 9)) as int;
        if tag == SET_TAG {
            if pos + 17 + klen > log.len() {
                None
            } else {
                let key = log.subrange(pos + 9, pos + 9 + klen);
                let vlen = spec_u64_from_le_bytes(
                    log.subrange(pos + 9 + klen, pos + 17 + klen),
                ) as int;
                if pos + 17 + klen + vlen > log.len() {
                    None
                } else {
                    Some(
                        (
                            CommandModel::Put {
                                key,
                                value: log.subrange(pos + 17 + klen, pos + 17 + klen + vlen),
                            },
                            17 + klen + vlen,
                        ),
                    )
                }
            }
        } else if tag == RM_TAG {
            if pos + 9 + klen > log.len() {
                None
            } else {
                Some((CommandModel::Rm { key: log.subrange(pos + 9, pos + 9 + klen) }, 9 + klen))
            }
        } else {
            None
        }
    }
}

/// The length of an encoded command, spelled out per variant.
pub proof fn lemma_encode_len(c: CommandModel)
    ensures
        match c {
            CommandModel::Put { key, value } => spec_encode(c).len() == 17 + key.len()
                + value.len(),
            CommandModel::Rm { key } => spec_encode(c).len() == 9 + key.len(),
        },
{
    lemma_auto_spec_u64_to_from_le_bytes();
}

/// A successful parse is canonical: the record's bytes are exactly the
/// encoding of the command it yields, and the consumed length is the
/// encoding's length.
pub proof fn lemma_parse_canonical(log: Seq<u8>, pos: int, c: CommandModel, n: int)
    requires
        spec_parse_record(log, pos) == Some((c, n)),
    ensures
        cmd_ok(c),
        9 <= n,
        pos + n <= log.len(),
        n == spec_encode(c).len(),
        log.subrange(pos, pos + n) == spec_encode(c),
{
    lemma_auto_spec_u64_to_from_le_bytes();
    let tag = log[pos];
    let klenb = log.subrange(pos + 1, pos + 9);
    let klen = spec_u64_from_le_bytes(klenb) as int;
    lemma_encode_len(c);
    if tag == SET_TAG {
        let vlenb = log.subrange(pos + 9 + klen, pos + 17 + klen);
        let vlen = spec_u64_from_le_bytes(vlenb) as int;
        assert(spec_u64_to_le_bytes(spec_u64_from_le_bytes(klenb)) == klenb);
        assert(spec_u64_to_le_bytes(spec_u64_from_le_bytes(vlenb)) == vlenb);
        assert(log.subrange(pos, pos + n) =~= spec_encode(c));
    } else {
        assert(spec_u64_to_le_bytes(spec_u64_from_le_bytes(klenb)) == klenb);
        assert(log.subrange(pos, pos + n) =~= spec_encode(c));
    }
}

/// Parsing at a position whose bytes are the encoding of `c` yields `c`
/// and consumes exactly the encoding, whatever bytes follow.
pub proof fn lemma_parse_encoded(log: Seq<u8>, pos: int, c: CommandModel)
    requires
        cmd_ok(c),
        0 <= pos,
        pos + spec_encode(c).len() <= log.len(),
        log.subrange(pos, pos + spec_encode(c).len() as int) == spec_encode(c),
    ensures
        spec_parse_record(log, pos) == Some((c, spec_encode(c).len() as int)),
{
    lemma_auto_spec_u64_to_from_le_bytes();
    lemma_encode_len(c);
    let len = spec_encode(c).len() as int;
    let sub = log.subrange(pos, pos + len);
    match c {
        CommandModel::Put { key, value } => {
            let klen = key.len() as int;
            let vlen = value.len() as int;
            let l1 = spec_u64_to_le_bytes(key.len() as u64);
            let l2 = spec_u64_to_le_bytes(value.len() as u64);
            let enc = seq![SET_TAG] + l1 + key + l2 + value;
            assert(spec_encode(c) == enc);
            assert(forall|j: int| 0 <= j < len ==> log[pos + j] == #[trigger] enc[j]) by {
                assert(forall|j: int| 0 <= j < len ==> #[trigger] sub[j] == log[pos + j]);
            }
            assert(log[pos + 0] == enc[0]);
            assert(log[pos] == SET_TAG);
            assert forall|i: int| 0 <= i < 8 implies log.subrange(pos + 1, pos + 9)[i] == l1[i] by {
                assert(log.subrange(pos + 1, pos + 9)[i] == log[pos + 1 + i]);
                assert(log[pos + (1 + i)] == enc[1 + i]);
                assert(enc[1 + i] == l1[i]);
            }
            assert(log.subrange(pos + 1, pos + 9) =~= l1);
            assert(spec_u64_from_le_bytes(log.subrange(pos + 1, pos + 9)) == key.len() as u64);
            assert forall|i: int| 0 <= i < klen implies log.subrange(pos + 9, pos + 9 + klen)[i]
                == key[i] by {
                assert(log.subrange(pos + 9, pos + 9 + klen)[i] == log[pos + 9 + i]);
                assert(log[pos + (9 + i)] == enc[9 + i]);
                assert(enc[9 + i] == key[i]);
            }
            assert(log.subrange(pos + 9, pos + 9 + klen) =~= key);
            assert forall|i: int| 0 <= i < 8 implies log.subrange(pos + 9 + klen, pos + 17 + klen)[i]
                == l2[i] by {
                assert(log.subrange(pos + 9 + klen, pos + 17 + klen)[i] == log[pos + 9 + klen + i]);
                assert(log[pos + (9 + klen + i)] == enc[9 + klen + i]);
                assert(enc[9 + klen + i] == l2[i]);
            }
            assert(log.subrange(pos + 9 + klen, pos + 17 + klen) =~= l2);
            assert(spec_u64_from_le_bytes(log.subrange(pos + 9 + klen, pos + 17 + klen))
                == value.len() as u64);
            assert forall|i: int| 0 <= i < vlen implies log.subrange(
                pos + 17 + klen,
                pos + 17 + klen + vlen,
            )[i] == value[i] by {
                assert(log.subrange(pos + 17 + klen, pos + 17 + klen + vlen)[i] == log[pos + 17
                    + klen + i]);
                assert(log[pos + (17 + klen + i)] == enc[17 + klen + i]);
                assert(enc[17 + klen + i] == value[i]);
            }
            assert(log.subrange(pos + 17 + klen, pos + 17 + klen + vlen) =~= value);
        },
        CommandModel::Rm { key } => {
            let klen = key.len() as int;
            let l1 = spec_u64_to_le_bytes(key.len() as u64);
            let enc = seq![RM_TAG] + l1 + key;
            assert(spec_encode(c) == enc);
            assert(forall|j: int| 0 <= j < len ==> log[pos + j] == #[trigger] enc[j]) by {
                assert(forall|j: int| 0 <= j < len ==> #[trigger] sub[j] == log[pos + j]);
            }
            assert(log[pos + 0] == enc[0]);
            assert(log[pos] == RM_TAG);
            assert forall|i: int| 0 <= i < 8 implies log.subrange(pos + 1, pos + 9)[i] == l1[i] by {
                assert(log.subrange(pos + 1, pos + 9)[i] == log[pos + 1 + i]);
                assert(log[pos + (1 + i)] == enc[1 + i]);
                assert(enc[1 + i] == l1[i]);
            }
            assert(log.subrange(pos + 1, pos + 9) =~= l1);
            assert(spec_u64_from_le_bytes(log.subrange(pos + 1, pos + 9)) == key.len() as u64);
            assert forall|i: int| 0 <= i < klen implies log.subrange(pos + 9, pos + 9 + klen)[i]
                == key[i] by {
                assert(log.subrange(pos + 9, pos + 9 + klen)[i] == log[pos + 9 + i]);
                assert(log[pos + (9 + i)] == enc[9 + i]);
                assert(enc[9 + i] == key[i]);
            }
            assert(log.subrange(pos + 9, pos + 9 + klen) =~= key);
        },
    }
}

/// A record that parses in `log` parses identically after any bytes are
/// appended: the frame never reads past its own end.
pub proof fn lemma_parse_extends(log: Seq<u8>, ext: Seq<u8>, pos: int, c: CommandModel, n: int)
    requires
        spec_parse_record(log, pos) == Some((c, n)),
    ensures
        spec_parse_record(log + ext, pos) == Some((c, n)),
{
    lemma_parse_canonical(log, pos, c, n);
    assert((log + ext).subrange(pos, pos + n) =~= log.subrange(pos, pos + n));
    lemma_parse_encoded(log + ext, pos, c);
}

/// Serializes one command into the frame that [`spec_parse_record`]
/// reads back.
pub fn encode_command(c: &Command) -> (out: Vec<u8>)
    ensures
        out@ == spec_encode(c@),
        cmd_ok(c@),
        out@.len() >= 9,
{
    proof {
        lemma_auto_spec_u64_to_from_le_bytes();
        lemma_encode_len(c@);
    }
    let mut out: Vec<u8> = Vec::new();
    match c {
        Command::Put { key, value } => {
            out.push(SET_TAG);
            let mut kl = u64_to_le_bytes(key.len() as u64);
            out.append(&mut kl);
            let mut kb = slice_to_vec(key.as_slice());
            out.append(&mut kb);
            let mut vl = u64_to_le_bytes(value.len() as u64);
            out.append(&mut vl);
            let mut vb = slice_to_vec(value.as_slice());
            out.append(&mut vb);
            proof {
                assert(out@ =~= spec_encode(c@));
            }
        },
        Command::Rm { key } => {
            out.push(RM_TAG);
            let mut kl = u64_to_le_bytes(key.len() as u64);
            out.append(&mut kl);
            let mut kb = slice_to_vec(key.as_slice());
            out.append(&mut kb);
            proof {
                assert(out@ =~= spec_encode(c@));
            }
        },
    }
    out
}

/// Reads back the record that starts at byte `pos` of `log`, returning
/// the command and the number of bytes it occupies, exactly as
/// [`spec_parse_record`] does.
pub fn decode_record(log: &Vec<u8>, pos: usize) -> (r: Option<(Command, usize)>)
    requires
        pos <= log@.len(),
    ensures
        match r {
            Some(p) => spec_parse_record(log@, pos as int) == Some((p.0@, p.1 as int)),
            None => spec_parse_record(log@, pos as int) is None,
        },
{
    let n = log.len();
    if n - pos < 9 {
        return None;
    }
    let tag = log[pos];
    let klen64 = u64_from_le_bytes(slice_subrange(log.as_slice(), pos + 1, pos + 9));
    let rest = n - pos - 9;
    if tag == SET_TAG {
        if klen64 >= rest as u64 || rest - (klen64 as usize) < 8 {
            // Too short for the key plus the value-length field.
            return None;
        }
        let klen = klen64 as usize;
        let key = slice_to_vec(slice_subrange(log.as_slice(), pos + 9, pos + 9 + klen));
        let vlen64 = u64_from_le_bytes(
            slice_subrange(log.as_slice(), pos + 9 + klen, pos + 17 + klen),
        );
        let rest2 = rest - klen - 8;
        if vlen64 > rest2 as u64 {
            return None;
        }
        let vlen = vlen64 as usize;
        let value = slice_to_vec(
            slice_subrange(log.as_slice(), pos + 17 + klen, pos + 17 + klen + vlen),
        );
        Some((Command::Put { key, value }, 17 + klen + vlen))
    } else if tag == RM_TAG {
        if klen64 > rest as u64 {
            return None;
        }
        let klen = klen64 as usize;
        let key = slice_to_vec(slice_subrange(log.as_slice(), pos + 9, pos + 9 + klen));
        Some((Command::Rm { key }, 9 + klen))
    } else {
        None
    }
}

} // verus!
