//! Replay: the mathematical reading of a whole log.
//!
//! `spec_replay` walks the log from offset zero, record by record,
//! building the key-to-position index and totalling the superseded
//! ("uncompacted") bytes, exactly as the scan at `open` does.  The
//! engine's invariant is that its in-memory index and counter are the
//! replay of its log, which is what makes the state durable: reopening
//! the same bytes rebuilds the same store.

use crate::codec::cmd_ok;
use crate::codec::lemma_parse_canonical;
use crate::codec::lemma_parse_encoded;
use crate::codec::lemma_parse_extends;
use crate::codec::spec_encode;
use crate::codec::spec_parse_record;
use crate::codec::CommandModel;
use crate::codec::CommandPos;
use vstd::prelude::*;

verus! {

/// Replays `log` from byte `pos` onward, starting from the given index
/// and dead-byte total.  `None` when some record fails to parse.
///
/// A displaced or removed entry adds its record's length to the total;
/// a `Rm` record is dead weight itself the moment it is applied, so its
/// own length counts too.
pub open spec fn spec_replay_from(
    log: Seq<u8>,
    pos: int,
    index: Map<Seq<u8>, CommandPos>,
    unc: int,
) -> Option<(Map<Seq<u8>, CommandPos>, int)>
    decreases log.len() - pos,
{
    if pos == log.len() {
        Some((index, unc))
    } else if pos < 0 || pos > log.len() {
        None
    } else {
        match spec_parse_record(log, pos) {
            None => None,
            Some((c, n)) => {
                if n <= 0 || pos + n > log.len() {
                    // Unreachable: a parsed record spans at least its
                    // header and never reads past the end.
                    None
                } else {
                    match c {
                        CommandModel::Put { key, value } => spec_replay_from(
                            log,
                            pos + n,
                            index.insert(key, CommandPos { pos: pos as u64, len: n as u64 }),
                            if index.contains_key(key) {
                                unc + index[key].len
                            } else {
                                unc
                            },
                        ),
                        CommandModel::Rm { key } => spec_replay_from(
                            log,
                            pos + n,
                            index.remove(key),
                            if index.contains_key(key) {
                                unc + index[key].len + n
                            } else {
                                unc + n
                            },
                        ),
                    }
                }
            },
        }
    }
}

/// Replay of a whole log from an empty index.
pub open spec fn spec_replay(log: Seq<u8>) -> Option<(Map<Seq<u8>, CommandPos>, int)> {
    spec_replay_from(log, 0, Map::empty(), 0)
}

/// An index entry is valid for a log when the record at its offset is a
/// `Set` of exactly that key occupying exactly `len` bytes.
pub open spec fn entry_valid(log: Seq<u8>, k: Seq<u8>, cp: CommandPos) -> bool {
    match spec_parse_record(log, cp.pos as int) {
        Some((c, n)) => match c {
            CommandModel::Put { key, value } => key == k && n == cp.len,
            CommandModel::Rm { key } => false,
        },
        None => false,
    }
}

/// The value stored by the `Set` record a position points at.
pub open spec fn value_at(log: Seq<u8>, cp: CommandPos) -> Seq<u8> {
    match spec_parse_record(log, cp.pos as int) {
        Some((c, n)) => match c {
            CommandModel::Put { key, value } => value,
            CommandModel::Rm { key } => Seq::empty(),
        },
        None => Seq::empty(),
    }
}

/// The key-to-value map a log denotes: each key the replayed index
/// holds, bound to the value of the record its entry points at.  Empty
/// when the log does not replay.
pub open spec fn replay_view(log: Seq<u8>) -> Map<Seq<u8>, Seq<u8>> {
    match spec_replay(log) {
        Some((index, unc)) => Map::new(
            |k: Seq<u8>| index.contains_key(k),
            |k: Seq<u8>| value_at(log, index[k]),
        ),
        None => Map::empty(),
    }
}

/// A valid entry stays valid, pointing at the same value, after any
/// bytes are appended to the log.
pub proof fn lemma_entry_valid_extends(log: Seq<u8>, ext: Seq<u8>, k: Seq<u8>, cp: CommandPos)
    requires
        entry_valid(log, k, cp),
    ensures
        entry_valid(log + ext, k, cp),
        value_at(log + ext, cp) == value_at(log, cp),
{
    let (c, n) = spec_parse_record(log, cp.pos as int)->Some_0;
    lemma_parse_extends(log, ext, cp.pos as int, c, n);
}

/// Replay started mid-way equals finishing the remaining records: a
/// successful replay of `log` determines the state at its end, and that
/// state carries over unchanged when `log` is extended.
pub proof fn lemma_replay_from_extends(
    log: Seq<u8>,
    ext: Seq<u8>,
    pos: int,
    index: Map<Seq<u8>, CommandPos>,
    unc: int,
    m: Map<Seq<u8>, CommandPos>,
    u: int,
)
    requires
        0 <= pos <= log.len(),
        spec_replay_from(log, pos, index, unc) == Some((m, u)),
    ensures
        spec_replay_from(log + ext, pos, index, unc) == spec_replay_from(
            log + ext,
            log.len() as int,
            m,
            u,
        ),
    decreases log.len() - pos,
{
    if pos == log.len() {
    } else {
        let (c, n) = spec_parse_record(log, pos)->Some_0;
        lemma_parse_canonical(log, pos, c, n);
        lemma_parse_extends(log, ext, pos, c, n);
        match c {
            CommandModel::Put { key, value } => {
                lemma_replay_from_extends(
                    log,
                    ext,
                    pos + n,
                    index.insert(key, CommandPos { pos: pos as u64, len: n as u64 }),
                    if index.contains_key(key) {
                        unc + index[key].len
                    } else {
                        unc
                    },
                    m,
                    u,
                );
            },
            CommandModel::Rm { key } => {
                lemma_replay_from_extends(
                    log,
                    ext,
                    pos + n,
                    index.remove(key),
                    if index.contains_key(key) {
                        unc + index[key].len + n
                    } else {
                        unc + n
                    },
                    m,
                    u,
                );
            },
        }
    }
}

/// Appending one encoded command to a log that replays steps the replay
/// outcome exactly as the engine's bookkeeping does.
pub proof fn lemma_replay_append(
    log: Seq<u8>,
    c: CommandModel,
    m: Map<Seq<u8>, CommandPos>,
    u: int,
)
    requires
        spec_replay(log) == Some((m, u)),
        cmd_ok(c),
        log.len() + spec_encode(c).len() <= u64::MAX,
    ensures
        ({
            let rec = spec_encode(c);
            let log2 = log + rec;
            let cp = CommandPos { pos: log.len() as u64, len: rec.len() as u64 };
            match c {
                CommandModel::Put { key, value } => spec_replay(log2) == Some(
                    (
                        m.insert(key, cp),
                        if m.contains_key(key) {
                            u + m[key].len
                        } else {
                            u
                        },
                    ),
                ),
                CommandModel::Rm { key } => spec_replay(log2) == Some(
                    (
                        m.remove(key),
                        if m.contains_key(key) {
                            u + m[key].len + rec.len()
                        } else {
                            u + rec.len()
                        },
                    ),
                ),
            }
        }),
{
    let rec = spec_encode(c);
    let log2 = log + rec;
    let end = log.len() as int;
    let n = rec.len() as int;
    lemma_replay_from_extends(log, rec, 0, Map::empty(), 0, m, u);
    assert(log2.subrange(end, end + rec.len() as int) =~= rec);
    lemma_parse_encoded(log2, end, c);
    lemma_parse_canonical(log2, end, c, n);
    let cp = CommandPos { pos: end as u64, len: n as u64 };
    match c {
        CommandModel::Put { key, value } => {
            let m2 = m.insert(key, cp);
            let u2: int = if m.contains_key(key) {
                u + m[key].len
            } else {
                u
            };
            assert(spec_replay_from(log2, end, m, u) == spec_replay_from(log2, end + n, m2, u2));
            assert(spec_replay_from(log2, end + n, m2, u2) == Some((m2, u2)));
        },
        CommandModel::Rm { key } => {
            let m2 = m.remove(key);
            let u2: int = if m.contains_key(key) {
                u + m[key].len + n
            } else {
                u + n
            };
            assert(spec_replay_from(log2, end, m, u) == spec_replay_from(log2, end + n, m2, u2));
            assert(spec_replay_from(log2, end + n, m2, u2) == Some((m2, u2)));
        },
    }
}

/// Every entry of a replayed index points at a `Set` record of its own
/// key, provided the entries already in the starting index do.
pub proof fn lemma_replay_entries_valid(
    log: Seq<u8>,
    pos: int,
    index: Map<Seq<u8>, CommandPos>,
    unc: int,
    m: Map<Seq<u8>, CommandPos>,
    u: int,
)
    requires
        0 <= pos <= log.len(),
        log.len() <= u64::MAX,
        spec_replay_from(log, pos, index, unc) == Some((m, u)),
        forall|k: Seq<u8>|
            index.contains_key(k) ==> entry_valid(log, k, #[trigger] index[k]),
    ensures
        forall|k: Seq<u8>| m.contains_key(k) ==> entry_valid(log, k, #[trigger] m[k]),
    decreases log.len() - pos,
{
    if pos == log.len() {
    } else {
        let (c, n) = spec_parse_record(log, pos)->Some_0;
        lemma_parse_canonical(log, pos, c, n);
        match c {
            CommandModel::Put { key, value } => {
                let cp = CommandPos { pos: pos as u64, len: n as u64 };
                assert(cp.pos as int == pos);
                assert(cp.len as int == n);
                assert(entry_valid(log, key, cp));
                lemma_replay_entries_valid(
                    log,
                    pos + n,
                    index.insert(key, cp),
                    if index.contains_key(key) {
                        unc + index[key].len
                    } else {
                        unc
                    },
                    m,
                    u,
                );
            },
            CommandModel::Rm { key } => {
                lemma_replay_entries_valid(
                    log,
                    pos + n,
                    index.remove(key),
                    if index.contains_key(key) {
                        unc + index[key].len + n
                    } else {
                        unc + n
                    },
                    m,
                    u,
                );
            },
        }
    }
}

} // verus!
