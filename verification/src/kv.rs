//! The log-structured storage engine.
//!
//! A `KvStore` holds the command log — the byte string of the log file
//! — together with the in-memory index and the dead-byte counter.  Its
//! invariant ties the three together: index and counter are exactly the
//! replay of the log, and the log's length is the live bytes the index
//! references plus the counted dead bytes.  Every operation's contract
//! is stated against the store's view, the key-to-value map it holds.

use crate::codec::decode_record;
use crate::codec::encode_command;
use crate::codec::lemma_parse_canonical;
use crate::codec::lemma_parse_encoded;
use crate::codec::spec_encode;
use crate::codec::spec_parse_record;
use crate::codec::Command;
use crate::codec::CommandPos;
use crate::error::KvsError;
use crate::index::entries_len_sum;
use crate::index::entries_map;
use crate::index::entries_sorted;
use crate::index::lemma_entries_map_char;
use crate::index::key_lt;
use crate::index::lemma_key_lt_total;
use crate::index::lemma_len_sum_bounds;
use crate::index::lemma_len_sum_pointwise;
use crate::index::lemma_sorted_distinct;
use crate::index::Index;
use crate::index::IndexEntry;
use crate::replay::entry_valid;
use crate::replay::lemma_entry_valid_extends;
use crate::replay::lemma_replay_append;
use crate::replay::lemma_replay_entries_valid;
use crate::replay::replay_view;
use crate::replay::spec_replay;
use crate::replay::spec_replay_from;
use crate::replay::value_at;
use vstd::prelude::*;
use vstd::slice::slice_subrange;
use vstd::slice::slice_to_vec;

verus! {

/// Dead bytes tolerated in the log before a mutating operation
/// triggers a compaction.
pub const COMPACTION_THRESHOLD: u64 = 1024 * 1024;

/// The key-value store, backed by a write-ahead command log.
///
/// The log bytes are the durable state: an embedder persists them and
/// hands them back to [`KvStore::open`], which replays them into the
/// same store.
pub struct KvStore {
    log: Vec<u8>,
    index: Index,
    uncompacted: u64,
}

impl View for KvStore {
    type V = Map<Seq<u8>, Seq<u8>>;

    /// The observable content: each live key bound to the value of the
    /// `Set` record its index entry points at.
    closed spec fn view(&self) -> Map<Seq<u8>, Seq<u8>> {
        Map::new(
            |k: Seq<u8>| self.index.as_map().contains_key(k),
            |k: Seq<u8>| value_at(self.log@, self.index.as_map()[k]),
        )
    }
}

/// Replays the whole log and rebuilds the index, returning it together
/// with the accumulated dead-byte total.  Fails on the first record
/// that does not parse.
pub fn load(log: &Vec<u8>) -> (r: Result<(Index, u64), KvsError>)
    ensures
        match r {
            Ok(p) => {
                &&& p.0.wf()
                &&& spec_replay(log@) == Some((p.0.as_map(), p.1 as int))
                &&& log@.len() == p.1 + p.0.len_sum()
            },
            Err(e) => spec_replay(log@) is None && (e matches KvsError::Des),
        },
{
    let end = log.len();
    let mut index = Index::new();
    let mut unc: u64 = 0;
    let mut pos: usize = 0;
    while pos < end
        invariant
            pos <= end,
            end == log@.len(),
            index.wf(),
            unc + index.len_sum() == pos,
            spec_replay(log@) == spec_replay_from(log@, pos as int, index.as_map(), unc as int),
        decreases end - pos,
    {
        match decode_record(log, pos) {
            None => {
                return Err(KvsError::Des);
            },
            Some((cmd, n)) => {
                proof {
                    lemma_parse_canonical(log@, pos as int, cmd@, n as int);
                    lemma_len_sum_bounds(index.entries@);
                    lemma_sorted_distinct(index.entries@);
                    lemma_entries_map_char(index.entries@);
                }
                let cp = CommandPos { pos: pos as u64, len: n as u64 };
                match cmd {
                    Command::Put { key, value } => {
                        let displaced = index.insert(key, cp);
                        match displaced {
                            Some(d) => {
                                unc = unc + d.len;
                            },
                            None => {},
                        }
                    },
                    Command::Rm { key } => {
                        let removed = index.remove(&key);
                        match removed {
                            Some(d) => {
                                unc = unc + d.len + n as u64;
                            },
                            None => {
                                unc = unc + n as u64;
                            },
                        }
                    },
                }
                pos = pos + n;
            },
        }
    }
    Ok((index, unc))
}

impl KvStore {
    /// The bytes of the log: the store's durable state.
    pub closed spec fn spec_log(self) -> Seq<u8> {
        self.log@
    }

    /// The dead-byte counter: a lower bound on what a compaction would
    /// reclaim.
    pub closed spec fn spec_uncompacted(self) -> u64 {
        self.uncompacted
    }

    /// Total byte length of the records the index references: the live
    /// part of the log.
    pub closed spec fn spec_live_bytes(self) -> int {
        self.index.len_sum()
    }

    /// The engine invariant, re-established by every operation: the
    /// index is sorted, index and counter are the replay of the log,
    /// and the log is live bytes plus counted dead bytes.
    pub closed spec fn wf(self) -> bool {
        &&& self.index.wf()
        &&& spec_replay(self.log@) == Some((self.index.as_map(), self.uncompacted as int))
        &&& self.log@.len() == self.uncompacted + self.index.len_sum()
        &&& self.log@.len() <= u64::MAX
    }

    /// Opens a store over the bytes of a log file, replaying them to
    /// rebuild the index.  Succeeds if and only if every record of the
    /// log parses; a corrupt log is surfaced, not truncated.
    pub fn open(log: Vec<u8>) -> (r: Result<KvStore, KvsError>)
        ensures
            match r {
                Ok(s) => {
                    &&& s.wf()
                    &&& s.spec_log() == log@
                    &&& spec_replay(log@) is Some
                    &&& s@ == replay_view(log@)
                },
                Err(e) => spec_replay(log@) is None && (e matches KvsError::Des),
            },
    {
        match load(&log) {
            Ok((index, unc)) => {
                let s = KvStore { log, index, uncompacted: unc };
                // Materializes the length bound the invariant carries.
                let _loglen = s.log.len();
                proof {
                    assert(s@ =~= replay_view(s.log@));
                }
                Ok(s)
            },
            Err(e) => Err(e),
        }
    }

    /// Gets the value of a key; `None` when the key is not present.
    ///
    /// On a well-formed store a lookup never fails: the indexed record
    /// always decodes to a `Set` of the same key.
    pub fn get(&self, key: Vec<u8>) -> (r: Result<Option<Vec<u8>>, KvsError>)
        requires
            self.wf(),
        ensures
            match r {
                Ok(ov) => match ov {
                    Some(v) => self@.contains_key(key@) && v@ == self@[key@],
                    None => !self@.contains_key(key@),
                },
                Err(e) => false,
            },
    {
        proof {
            lemma_replay_entries_valid(
                self.log@,
                0,
                Map::empty(),
                0,
                self.index.as_map(),
                self.uncompacted as int,
            );
        }
        let loglen = self.log.len();
        match self.index.get(&key) {
            Some(cp) => {
                proof {
                    assert(entry_valid(self.log@, key@, cp));
                    let (c, n) = spec_parse_record(self.log@, cp.pos as int)->Some_0;
                    lemma_parse_canonical(self.log@, cp.pos as int, c, n);
                    assert(cp.pos <= loglen);
                }
                match decode_record(&self.log, cp.pos as usize) {
                    Some((cmd, n)) => match cmd {
                        Command::Put { key: _, value } => Ok(Some(value)),
                        Command::Rm { .. } => Err(KvsError::UnexpectedCommandType),
                    },
                    None => Err(KvsError::Des),
                }
            },
            None => Ok(None),
        }
    }

    /// Sets the value of a key.  If the key already exists, the
    /// previous value is overwritten and its record becomes dead
    /// weight in the log.
    pub fn set(&mut self, key: Vec<u8>, value: Vec<u8>) -> (r: Result<(), KvsError>)
        requires
            old(self).wf(),
        ensures
            r is Ok,
            final(self).wf(),
            final(self)@ == old(self)@.insert(key@, value@),
            final(self).spec_uncompacted() <= COMPACTION_THRESHOLD,
    {
        let ghost m0 = self.index.as_map();
        let ghost u0 = self.uncompacted as int;
        let ghost log0 = self.log@;
        let ghost view0 = self@;
        proof {
            lemma_replay_entries_valid(log0, 0, Map::empty(), 0, m0, u0);
            lemma_sorted_distinct(self.index.entries@);
            lemma_entries_map_char(self.index.entries@);
            lemma_len_sum_bounds(self.index.entries@);
        }
        let pos = self.log.len();
        let cmd = Command::set(key, value);
        let mut rec = encode_command(&cmd);
        let n = rec.len();
        let ghost rec_v = rec@;
        self.log.append(&mut rec);
        // Materializes the new length for the counter's bounds.
        let _newlen = self.log.len();
        proof {
            lemma_replay_append(log0, cmd@, m0, u0);
        }
        let cp = CommandPos { pos: pos as u64, len: n as u64 };
        let owned_key = match cmd {
            Command::Put { key, value: _ } => key,
            Command::Rm { key } => key,
        };
        let displaced = self.index.insert(owned_key, cp);
        match displaced {
            Some(d) => {
                proof {
                    // The displaced record is part of the live bytes,
                    // so the counter stays within the log's length.
                    let s0 = old(self).index.entries@;
                    let i = choose|i: int| 0 <= i < s0.len() && s0[i].key@ == key@;
                    assert(m0[s0[i].key@] == s0[i].pos);
                    assert(d.len <= old(self).index.len_sum());
                }
                self.uncompacted = self.uncompacted + d.len;
            },
            None => {},
        }
        proof {
            assert(self.log@ == log0 + spec_encode(cmd@));
            assert(self.wf());
            assert(self@ =~= view0.insert(key@, value@)) by {
                assert(self.log@.subrange(pos as int, pos as int + n as int) =~= rec_v);
                lemma_parse_encoded(self.log@, pos as int, cmd@);
                assert forall|k: Seq<u8>| #[trigger] self@.contains_key(k) implies self@[k]
                    == view0.insert(key@, value@)[k] by {
                    if k != key@ {
                        lemma_entry_valid_extends(log0, rec_v, k, m0[k]);
                    }
                }
            }
        }
        if self.uncompacted > COMPACTION_THRESHOLD {
            self.compact();
        }
        Ok(())
    }

    /// Removes a key.  When the key is absent the store is left
    /// untouched and `NonExistentKey` is returned; otherwise a `Rm`
    /// record is appended and both it and the displaced `Set` record
    /// count as dead bytes.
    pub fn remove(&mut self, key: Vec<u8>) -> (r: Result<(), KvsError>)
        requires
            old(self).wf(),
        ensures
            final(self).wf(),
            old(self)@.contains_key(key@) ==> r is Ok && final(self)@ == old(self)@.remove(key@)
                && final(self).spec_uncompacted() <= COMPACTION_THRESHOLD,
            !old(self)@.contains_key(key@) ==> *final(self) == *old(self) && (r matches Err(
                KvsError::NonExistentKey(k),
            ) && k@ == key@),
    {
        let ghost m0 = self.index.as_map();
        let ghost u0 = self.uncompacted as int;
        let ghost log0 = self.log@;
        let ghost view0 = self@;
        proof {
            lemma_replay_entries_valid(log0, 0, Map::empty(), 0, m0, u0);
            lemma_sorted_distinct(self.index.entries@);
            lemma_entries_map_char(self.index.entries@);
            lemma_len_sum_bounds(self.index.entries@);
        }
        let removed = self.index.remove(&key);
        match removed {
            None => Err(KvsError::NonExistentKey(key)),
            Some(old_cp) => {
                let pos = self.log.len();
                let cmd = Command::remove(key);
                let mut rec = encode_command(&cmd);
                let n = rec.len();
                let ghost rec_v = rec@;
                self.log.append(&mut rec);
                // Materializes the new length for the counter's bounds.
        let _newlen = self.log.len();
                proof {
                    lemma_replay_append(log0, cmd@, m0, u0);
                    // The removed record was part of the live bytes,
                    // so the counter stays within the new log's length.
                    let s0 = old(self).index.entries@;
                    let i = choose|i: int| 0 <= i < s0.len() && s0[i].key@ == key@;
                    assert(m0[s0[i].key@] == s0[i].pos);
                    assert(old_cp.len <= old(self).index.len_sum());
                }
                self.uncompacted = self.uncompacted + old_cp.len + n as u64;
                proof {
                    assert(self.log@ == log0 + spec_encode(cmd@));
                    assert(self.wf());
                    assert(self@ =~= view0.remove(key@)) by {
                        assert forall|k: Seq<u8>| #[trigger] self@.contains_key(k) implies self@[k]
                            == view0.remove(key@)[k] by {
                            lemma_entry_valid_extends(log0, rec_v, k, m0[k]);
                        }
                    }
                }
                if self.uncompacted > COMPACTION_THRESHOLD {
                    self.compact();
                }
                Ok(())
            },
        }
    }

    /// Clears stale records from the log.
    ///
    /// Compaction copies the live records — one per index entry, in key
    /// order, byte for byte — into a fresh log that replaces the old
    /// one, and re-points the index at the new offsets.  The observable
    /// mapping is unchanged and no dead bytes remain.
    pub fn compact(&mut self)
        requires
            old(self).wf(),
        ensures
            final(self).wf(),
            final(self)@ == old(self)@,
            final(self).spec_uncompacted() == 0,
            final(self).spec_live_bytes() == old(self).spec_live_bytes(),
            final(self).spec_log().len() == old(self).spec_live_bytes(),
    {
        let ghost log0 = self.log@;
        let ghost s0 = self.index.entries@;
        let ghost m0 = self.index.as_map();
        let ghost view0 = self@;
        proof {
            lemma_replay_entries_valid(log0, 0, Map::empty(), 0, m0, self.uncompacted as int);
            lemma_sorted_distinct(s0);
            lemma_entries_map_char(s0);
            lemma_len_sum_bounds(s0);
        }
        let n = self.index.len();
        let loglen = self.log.len();
        let mut new_log: Vec<u8> = Vec::new();
        let mut new_entries: Vec<IndexEntry> = Vec::new();
        let mut i: usize = 0;
        while i < n
            invariant
                i <= n,
                n == s0.len(),
                self.log@ == log0,
                self.index.entries@ == s0,
                log0.len() <= u64::MAX,
                entries_sorted(s0),
                forall|k: Seq<u8>| m0.contains_key(k) ==> entry_valid(log0, k, #[trigger] m0[k]),
                forall|j: int|
                    0 <= j < s0.len() ==> m0.contains_key(#[trigger] s0[j].key@) && m0[s0[j].key@]
                        == s0[j].pos,
                new_entries@.len() == i,
                forall|j: int| 0 <= j < i ==> (#[trigger] new_entries@[j]).key@ == s0[j].key@,
                forall|j: int| 0 <= j < i ==> (#[trigger] new_entries@[j]).pos.len == s0[j].pos.len,
                new_log@.len() == entries_len_sum(new_entries@),
                entries_sorted(new_entries@),
                spec_replay(new_log@) == Some((entries_map(new_entries@), 0int)),
                forall|j: int|
                    0 <= j < i ==> entry_valid(
                        new_log@,
                        new_entries@[j].key@,
                        (#[trigger] new_entries@[j]).pos,
                    ),
                forall|j: int|
                    0 <= j < i ==> value_at(new_log@, (#[trigger] new_entries@[j]).pos) == value_at(
                        log0,
                        s0[j].pos,
                    ),
            decreases n - i,
        {
            let entry_pos = self.index.entries[i].pos;
            let ll = self.log.len();
            proof {
                assert(m0[s0[i as int].key@] == entry_pos);
                assert(entry_valid(log0, s0[i as int].key@, entry_pos));
                let (c, rl) = spec_parse_record(log0, entry_pos.pos as int)->Some_0;
                lemma_parse_canonical(log0, entry_pos.pos as int, c, rl);
                assert(entry_pos.pos + entry_pos.len <= ll);
            }
            let start = new_log.len();
            let key_copy = slice_to_vec(self.index.entries[i].key.as_slice());
            let mut rec = slice_to_vec(
                slice_subrange(
                    self.log.as_slice(),
                    entry_pos.pos as usize,
                    entry_pos.pos as usize + entry_pos.len as usize,
                ),
            );
            let ghost rec_v = rec@;
            let ghost pre_log = new_log@;
            let ghost pre_entries = new_entries@;
            new_log.append(&mut rec);
            let nl = new_log.len();
            let new_cp = CommandPos { pos: start as u64, len: entry_pos.len };
            new_entries.push(IndexEntry { key: key_copy, pos: new_cp });
            proof {
                let ii = i as int;
                let k = s0[ii].key@;
                let (c, rl) = spec_parse_record(log0, entry_pos.pos as int)->Some_0;
                assert(rec_v == spec_encode(c));
                assert(pre_log.len() + spec_encode(c).len() == nl);
                lemma_sorted_distinct(pre_entries);
                lemma_entries_map_char(pre_entries);
                if entries_map(pre_entries).contains_key(c->Put_key) {
                    let j = choose|j: int|
                        0 <= j < pre_entries.len() && pre_entries[j].key@ == c->Put_key;
                    lemma_key_lt_total(s0[j].key@, k);
                }
                lemma_replay_append(pre_log, c, entries_map(pre_entries), 0);
                assert(new_entries@.drop_last() =~= pre_entries);
                assert(new_entries@.last() == (IndexEntry { key: new_entries@.last().key, pos: new_cp }));
                assert(new_entries@.last().key@ == k);
                assert(entries_map(new_entries@) == entries_map(pre_entries).insert(k, new_cp));
                assert(spec_replay(new_log@) == Some((entries_map(new_entries@), 0int)));
                assert(new_log@.subrange(start as int, start as int + rl) =~= rec_v);
                lemma_parse_encoded(new_log@, start as int, c);
                assert(entry_valid(new_log@, k, new_cp));
                assert(value_at(new_log@, new_cp) == value_at(log0, entry_pos));
                assert forall|j: int| 0 <= j < ii implies entry_valid(
                    new_log@,
                    new_entries@[j].key@,
                    (#[trigger] new_entries@[j]).pos,
                ) && value_at(new_log@, new_entries@[j].pos) == value_at(log0, s0[j].pos) by {
                    assert(new_entries@[j] == pre_entries[j]);
                    lemma_entry_valid_extends(pre_log, rec_v, pre_entries[j].key@, pre_entries[j].pos);
                }
                assert forall|a: int, b: int| 0 <= a < b < new_entries@.len() implies key_lt(
                    new_entries@[a].key@,
                    new_entries@[b].key@,
                ) by {
                    assert(new_entries@[a].key@ == s0[a].key@);
                    assert(new_entries@[b].key@ == s0[b].key@);
                }
            }
            i = i + 1;
        }
        proof {
            lemma_sorted_distinct(new_entries@);
            lemma_entries_map_char(new_entries@);
            lemma_len_sum_pointwise(new_entries@, s0);
        }
        self.log = new_log;
        self.index = Index { entries: new_entries };
        self.uncompacted = 0;
        proof {
            assert(self.wf());
            assert(self@ =~= view0) by {
                let s1 = self.index.entries@;
                let m1 = self.index.as_map();
                assert forall|k: Seq<u8>| #[trigger] m1.contains_key(k) implies m0.contains_key(k)
                    && self@[k] == view0[k] by {
                    let j = choose|j: int| 0 <= j < s1.len() && s1[j].key@ == k;
                    assert(s0[j].key@ == k);
                    assert(m1[k] == s1[j].pos);
                    assert(m0[k] == s0[j].pos);
                    assert(value_at(self.log@, s1[j].pos) == value_at(log0, s0[j].pos));
                }
                assert forall|k: Seq<u8>| #[trigger] m0.contains_key(k) implies m1.contains_key(
                    k,
                ) by {
                    let j = choose|j: int| 0 <= j < s0.len() && s0[j].key@ == k;
                    assert(s1[j].key@ == k);
                }
            }
        }
    }

    /// The bytes of the log file, for an embedder to persist.
    pub fn log_bytes(&self) -> (r: &Vec<u8>)
        ensures
            r@ == self.spec_log(),
    {
        &self.log
    }

    /// The length of the log in bytes.
    pub fn log_len(&self) -> (n: usize)
        ensures
            n == self.spec_log().len(),
    {
        self.log.len()
    }

    /// The dead-byte counter: a lower bound on what a compaction would
    /// reclaim.
    pub fn uncompacted(&self) -> (n: u64)
        ensures
            n == self.spec_uncompacted(),
    {
        self.uncompacted
    }
}

/// Persistence and replay fidelity: the log of a well-formed store
/// replays successfully, and the mapping it denotes is exactly the
/// store's own content.  With [`KvStore::open`]'s contract this says
/// that dropping a store and reopening its log bytes rebuilds a store
/// with the same observable content.
pub proof fn lemma_replay_fidelity(s: KvStore)
    requires
        s.wf(),
    ensures
        spec_replay(s.spec_log()) is Some,
        replay_view(s.spec_log()) == s@,
{
    assert(replay_view(s.spec_log()) =~= s@);
}

/// Compaction bound: whenever the dead-byte counter is within the
/// threshold — as it is after every `set` and `remove` — the log is no
/// larger than the threshold plus the live bytes, independently of how
/// many operations produced it.
pub proof fn lemma_log_size_bound(s: KvStore)
    requires
        s.wf(),
        s.spec_uncompacted() <= COMPACTION_THRESHOLD,
    ensures
        s.spec_log().len() <= COMPACTION_THRESHOLD + s.spec_live_bytes(),
{
}

/// Overwrite: a second `set` of the same key shadows the first
/// entirely; reading the key afterwards yields the second value.
pub proof fn lemma_overwrite(m: Map<Seq<u8>, Seq<u8>>, k: Seq<u8>, v1: Seq<u8>, v2: Seq<u8>)
    ensures
        m.insert(k, v1).insert(k, v2) == m.insert(k, v2),
        m.insert(k, v2).contains_key(k),
        m.insert(k, v2)[k] == v2,
{
    assert(m.insert(k, v1).insert(k, v2) =~= m.insert(k, v2));
}

/// Remove after set: removing a key erases it no matter what was set
/// before; a subsequent read misses.
pub proof fn lemma_set_then_remove(m: Map<Seq<u8>, Seq<u8>>, k: Seq<u8>, v: Seq<u8>)
    ensures
        m.insert(k, v).remove(k) == m.remove(k),
        !m.remove(k).contains_key(k),
{
    assert(m.insert(k, v).remove(k) =~= m.remove(k));
}

/// Independence: writes to one key never affect reads of another.
pub proof fn lemma_independence(m: Map<Seq<u8>, Seq<u8>>, k1: Seq<u8>, v: Seq<u8>, k2: Seq<u8>)
    requires
        k1 != k2,
    ensures
        m.insert(k1, v).contains_key(k2) == m.contains_key(k2),
        m.contains_key(k2) ==> m.insert(k1, v)[k2] == m[k2],
        m.remove(k1).contains_key(k2) == m.contains_key(k2),
        m.contains_key(k2) ==> m.remove(k1)[k2] == m[k2],
{
}

} // verus!
