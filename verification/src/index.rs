//! The in-memory index: an ordered mapping from each live key to the
//! byte range of its most recent `Set` record in the log.
//!
//! The index is a vector of entries kept strictly sorted by key, so
//! lookups can bisect and the compactor walks keys in one fixed order.
//! Its mathematical reading is the finite map [`Index::as_map`].

use crate::codec::CommandPos;
use vstd::prelude::*;

verus! {

/// Strict lexicographic order on byte strings: a proper prefix comes
/// first, otherwise the first differing byte decides.
pub open spec fn key_lt(a: Seq<u8>, b: Seq<u8>) -> bool
    decreases a.len(),
{
    if b.len() == 0 {
        false
    } else if a.len() == 0 {
        true
    } else if a[0] < b[0] {
        true
    } else if a[0] > b[0] {
        false
    } else {
        key_lt(a.skip(1), b.skip(1))
    }
}

/// `key_lt` is a strict total order: it is asymmetric, irreflexive, and
/// two keys neither of which precedes the other are equal.
pub proof fn lemma_key_lt_total(a: Seq<u8>, b: Seq<u8>)
    ensures
        key_lt(a, b) ==> !key_lt(b, a),
        key_lt(a, b) ==> a != b,
        !key_lt(a, b) && !key_lt(b, a) ==> a == b,
    decreases a.len(),
{
    if a.len() == 0 && b.len() == 0 {
        assert(a =~= b);
    } else if a.len() > 0 && b.len() > 0 && a[0] == b[0] {
        lemma_key_lt_total(a.skip(1), b.skip(1));
        if !key_lt(a, b) && !key_lt(b, a) {
            assert(a.skip(1) == b.skip(1));
            assert forall|k: int| 0 <= k < a.len() implies a[k] == b[k] by {
                if k > 0 {
                    assert(a.skip(1)[k - 1] == a[k]);
                    assert(b.skip(1)[k - 1] == b[k]);
                }
            }
            assert(a =~= b);
        }
        if a == b {
            assert(a.skip(1) == b.skip(1));
        }
    }
}

/// `key_lt` is transitive.
pub proof fn lemma_key_lt_trans(a: Seq<u8>, b: Seq<u8>, c: Seq<u8>)
    requires
        key_lt(a, b),
        key_lt(b, c),
    ensures
        key_lt(a, c),
    decreases a.len(),
{
    if a.len() > 0 && b.len() > 0 && c.len() > 0 {
        if a[0] == b[0] && b[0] == c[0] {
            lemma_key_lt_trans(a.skip(1), b.skip(1), c.skip(1));
        }
    }
}

/// Keys with a common prefix of length `i` are ordered as their
/// suffixes from `i` on are.
pub proof fn lemma_key_lt_skip(a: Seq<u8>, b: Seq<u8>, i: int)
    requires
        0 <= i <= a.len(),
        i <= b.len(),
        a.subrange(0, i) == b.subrange(0, i),
    ensures
        key_lt(a, b) == key_lt(a.skip(i), b.skip(i)),
    decreases i,
{
    if i > 0 {
        assert(a.subrange(0, i)[0] == a[0]);
        assert(b.subrange(0, i)[0] == b[0]);
        assert(a[0] == b[0]);
        assert forall|j: int| 0 <= j < i - 1 implies #[trigger] a.skip(1).subrange(0, i - 1)[j]
            == b.skip(1).subrange(0, i - 1)[j] by {
            assert(a.skip(1).subrange(0, i - 1)[j] == a.skip(1)[j]);
            assert(a.skip(1)[j] == a[j + 1]);
            assert(b.skip(1).subrange(0, i - 1)[j] == b.skip(1)[j]);
            assert(b.skip(1)[j] == b[j + 1]);
            assert(a.subrange(0, i)[j + 1] == a[j + 1]);
            assert(b.subrange(0, i)[j + 1] == b[j + 1]);
        }
        assert(a.skip(1).subrange(0, i - 1) =~= b.skip(1).subrange(0, i - 1));
        lemma_key_lt_skip(a.skip(1), b.skip(1), i - 1);
        assert(a.skip(1).skip(i - 1) =~= a.skip(i));
        assert(b.skip(1).skip(i - 1) =~= b.skip(i));
    } else {
        assert(a.skip(0) =~= a);
        assert(b.skip(0) =~= b);
    }
}

/// Three-way comparison of two keys: `0` when `a` precedes `b`, `1`
/// when they are equal, `2` when `b` precedes `a`.
pub fn key_cmp(a: &Vec<u8>, b: &Vec<u8>) -> (o: u8)
    ensures
        o == 0 || o == 1 || o == 2,
        (o == 0) == key_lt(a@, b@),
        (o == 1) == (a@ == b@),
        (o == 2) == key_lt(b@, a@),
{
    let alen = a.len();
    let blen = b.len();
    let mut i: usize = 0;
    loop
        invariant
            i <= alen,
            i <= blen,
            alen == a@.len(),
            blen == b@.len(),
            a@.subrange(0, i as int) == b@.subrange(0, i as int),
        decreases alen - i,
    {
        proof {
            lemma_key_lt_skip(a@, b@, i as int);
            lemma_key_lt_skip(b@, a@, i as int);
            lemma_key_lt_total(a@, b@);
        }
        if i == alen || i == blen {
            if i == alen && i == blen {
                proof {
                    assert(a@ =~= b@);
                }
                return 1;
            } else if i == alen {
                proof {
                    assert(a@.skip(i as int).len() == 0);
                    assert(b@.skip(i as int).len() > 0);
                }
                return 0;
            } else {
                proof {
                    assert(b@.skip(i as int).len() == 0);
                    assert(a@.skip(i as int).len() > 0);
                }
                return 2;
            }
        }
        let x = a[i];
        let y = b[i];
        if x < y {
            proof {
                assert(a@.skip(i as int)[0] == a@[i as int]);
                assert(b@.skip(i as int)[0] == b@[i as int]);
            }
            return 0;
        } else if x > y {
            proof {
                assert(a@.skip(i as int)[0] == a@[i as int]);
                assert(b@.skip(i as int)[0] == b@[i as int]);
            }
            return 2;
        }
        i = i + 1;
        proof {
            assert(a@.subrange(0, i as int) =~= b@.subrange(0, i as int));
        }
    }
}

/// One index entry: a key and the byte range of its latest `Set`.
pub struct IndexEntry {
    pub key: Vec<u8>,
    pub pos: CommandPos,
}

/// The entries read as a finite map, later entries shadowing earlier
/// ones (with distinct keys nothing is shadowed).
pub open spec fn entries_map(s: Seq<IndexEntry>) -> Map<Seq<u8>, CommandPos>
    decreases s.len(),
{
    if s.len() == 0 {
        Map::empty()
    } else {
        entries_map(s.drop_last()).insert(s.last().key@, s.last().pos)
    }
}

/// Entries strictly ascending by key.
pub open spec fn entries_sorted(s: Seq<IndexEntry>) -> bool {
    forall|i: int, j: int| 0 <= i < j < s.len() ==> key_lt(s[i].key@, s[j].key@)
}

/// Pairwise distinct keys.
pub open spec fn entries_distinct(s: Seq<IndexEntry>) -> bool {
    forall|i: int, j: int| 0 <= i < j < s.len() ==> s[i].key@ != s[j].key@
}

/// Sorted entries have pairwise distinct keys.
pub proof fn lemma_sorted_distinct(s: Seq<IndexEntry>)
    requires
        entries_sorted(s),
    ensures
        entries_distinct(s),
{
    assert forall|i: int, j: int| 0 <= i < j < s.len() implies s[i].key@ != s[j].key@ by {
        lemma_key_lt_total(s[i].key@, s[j].key@);
    }
}

/// What `entries_map` holds, entry by entry: exactly the keys of the
/// entries, each bound to its entry's position.
pub proof fn lemma_entries_map_char(s: Seq<IndexEntry>)
    requires
        entries_distinct(s),
    ensures
        forall|k: Seq<u8>| #[trigger]
            entries_map(s).contains_key(k) ==> exists|i: int|
                0 <= i < s.len() && s[i].key@ == k,
        forall|i: int|
            0 <= i < s.len() ==> entries_map(s).contains_key(#[trigger] s[i].key@),
        forall|i: int|
            0 <= i < s.len() ==> entries_map(s)[#[trigger] s[i].key@] == s[i].pos,
    decreases s.len(),
{
    if s.len() > 0 {
        let b = s.drop_last();
        assert(forall|i: int| 0 <= i < b.len() ==> b[i] == #[trigger] s[i]);
        lemma_entries_map_char(b);
        assert forall|k: Seq<u8>| #[trigger]
            entries_map(s).contains_key(k) implies exists|i: int|
            0 <= i < s.len() && s[i].key@ == k by {
            if k == s.last().key@ {
                assert(s[s.len() - 1].key@ == k);
            } else {
                assert(entries_map(b).contains_key(k));
            }
        }
        assert forall|i: int|
            0 <= i < s.len() implies entries_map(s).contains_key(#[trigger] s[i].key@)
            && entries_map(s)[s[i].key@] == s[i].pos by {
            if i < s.len() - 1 {
                assert(s[i].key@ != s.last().key@);
                assert(entries_map(b).contains_key(s[i].key@));
                assert(entries_map(b)[s[i].key@] == b[i].pos);
            }
        }
    }
}

/// Total byte length of the records the entries reference.
pub open spec fn entries_len_sum(s: Seq<IndexEntry>) -> int
    decreases s.len(),
{
    if s.len() == 0 {
        0
    } else {
        entries_len_sum(s.drop_last()) + s.last().pos.len
    }
}

/// The sum is nonnegative and bounds each single entry's length.
pub proof fn lemma_len_sum_bounds(s: Seq<IndexEntry>)
    ensures
        entries_len_sum(s) >= 0,
        forall|i: int| 0 <= i < s.len() ==> (#[trigger] s[i].pos).len <= entries_len_sum(s),
    decreases s.len(),
{
    if s.len() > 0 {
        let b = s.drop_last();
        lemma_len_sum_bounds(b);
        assert(forall|i: int| 0 <= i < b.len() ==> b[i] == #[trigger] s[i]);
    }
}

/// Replacing entry `i` changes the sum by the difference of the two
/// record lengths.
pub proof fn lemma_len_sum_update(s: Seq<IndexEntry>, i: int, e: IndexEntry)
    requires
        0 <= i < s.len(),
    ensures
        entries_len_sum(s.update(i, e)) == entries_len_sum(s) - s[i].pos.len + e.pos.len,
    decreases s.len(),
{
    let t = s.update(i, e);
    if i == s.len() - 1 {
        assert(t.drop_last() =~= s.drop_last());
        assert(t.last() == e);
    } else {
        assert(t.drop_last() =~= s.drop_last().update(i, e));
        assert(t.last() == s.last());
        lemma_len_sum_update(s.drop_last(), i, e);
    }
}

/// Inserting an entry adds its record length to the sum.
pub proof fn lemma_len_sum_insert(s: Seq<IndexEntry>, i: int, e: IndexEntry)
    requires
        0 <= i <= s.len(),
    ensures
        entries_len_sum(s.insert(i, e)) == entries_len_sum(s) + e.pos.len,
    decreases s.len(),
{
    let t = s.insert(i, e);
    if i == s.len() {
        assert(t.drop_last() =~= s);
        assert(t.last() == e);
    } else {
        assert(t.drop_last() =~= s.drop_last().insert(i, e));
        assert(t.last() == s.last());
        lemma_len_sum_insert(s.drop_last(), i, e);
    }
}

/// Removing an entry subtracts its record length from the sum.
pub proof fn lemma_len_sum_remove(s: Seq<IndexEntry>, i: int)
    requires
        0 <= i < s.len(),
    ensures
        entries_len_sum(s.remove(i)) == entries_len_sum(s) - s[i].pos.len,
    decreases s.len(),
{
    let t = s.remove(i);
    if i == s.len() - 1 {
        assert(t =~= s.drop_last());
    } else {
        assert(t.drop_last() =~= s.drop_last().remove(i));
        assert(t.last() == s.last());
        lemma_len_sum_remove(s.drop_last(), i);
    }
}

/// Sums agree for entry sequences whose records have pointwise equal
/// lengths.
pub proof fn lemma_len_sum_pointwise(s1: Seq<IndexEntry>, s2: Seq<IndexEntry>)
    requires
        s1.len() == s2.len(),
        forall|i: int| 0 <= i < s1.len() ==> (#[trigger] s1[i].pos).len == s2[i].pos.len,
    ensures
        entries_len_sum(s1) == entries_len_sum(s2),
    decreases s1.len(),
{
    if s1.len() > 0 {
        assert(forall|i: int| 0 <= i < s1.len() - 1 ==> s1.drop_last()[i] == #[trigger] s1[i]);
        assert(forall|i: int| 0 <= i < s2.len() - 1 ==> s2.drop_last()[i] == #[trigger] s2[i]);
        lemma_len_sum_pointwise(s1.drop_last(), s2.drop_last());
    }
}

/// The index itself: entries strictly sorted by key.
pub struct Index {
    pub entries: Vec<IndexEntry>,
}

impl Index {
    /// Well-formedness: the entries ascend strictly by key.
    pub open spec fn wf(self) -> bool {
        entries_sorted(self.entries@)
    }

    /// The key-to-position map the index stands for.
    pub open spec fn as_map(self) -> Map<Seq<u8>, CommandPos> {
        entries_map(self.entries@)
    }

    /// Total byte length of the records the index references: the live
    /// bytes of the log.
    pub open spec fn len_sum(self) -> int {
        entries_len_sum(self.entries@)
    }

    /// An empty index.
    pub fn new() -> (r: Index)
        ensures
            r.wf(),
            r.as_map() == Map::<Seq<u8>, CommandPos>::empty(),
            r.entries@.len() == 0,
    {
        Index { entries: Vec::new() }
    }

    /// Number of entries.
    pub fn len(&self) -> (n: usize)
        ensures
            n == self.entries@.len(),
    {
        self.entries.len()
    }

    /// Bisects for `key`: either its position among the entries, or the
    /// place where it would be inserted.
    fn find(&self, key: &Vec<u8>) -> (r: (bool, usize))
        requires
            self.wf(),
        ensures
            r.1 <= self.entries@.len(),
            r.0 ==> r.1 < self.entries@.len() && self.entries@[r.1 as int].key@ == key@,
            !r.0 ==> forall|i: int| 0 <= i < r.1 ==> key_lt(#[trigger] self.entries@[i].key@, key@),
            !r.0 ==> forall|i: int|
                r.1 <= i < self.entries@.len() ==> key_lt(key@, #[trigger] self.entries@[i].key@),
    {
        let ghost s = self.entries@;
        let mut lo: usize = 0;
        let mut hi: usize = self.entries.len();
        while lo < hi
            invariant
                lo <= hi <= s.len(),
                self.wf(),
                s == self.entries@,
                forall|i: int| 0 <= i < lo ==> key_lt(#[trigger] s[i].key@, key@),
                forall|i: int| hi <= i < s.len() ==> key_lt(key@, #[trigger] s[i].key@),
            decreases hi - lo,
        {
            let mid = lo + (hi - lo) / 2;
            let o = key_cmp(&self.entries[mid].key, key);
            if o == 1 {
                return (true, mid);
            } else if o == 0 {
                lo = mid + 1;
                proof {
                    assert forall|i: int| 0 <= i < lo implies key_lt(
                        #[trigger] s[i].key@,
                        key@,
                    ) by {
                        if i < mid {
                            lemma_key_lt_trans(s[i].key@, s[mid as int].key@, key@);
                        }
                    }
                }
            } else {
                hi = mid;
                proof {
                    assert forall|i: int| hi <= i < s.len() implies key_lt(
                        key@,
                        #[trigger] s[i].key@,
                    ) by {
                        if i > mid {
                            lemma_key_lt_trans(key@, s[mid as int].key@, s[i].key@);
                        }
                    }
                }
            }
        }
        (false, lo)
    }

    /// Point lookup.
    pub fn get(&self, key: &Vec<u8>) -> (r: Option<CommandPos>)
        requires
            self.wf(),
        ensures
            r == (if self.as_map().contains_key(key@) {
                Some(self.as_map()[key@])
            } else {
                None::<CommandPos>
            }),
    {
        proof {
            lemma_sorted_distinct(self.entries@);
            lemma_entries_map_char(self.entries@);
        }
        let (found, idx) = self.find(key);
        if found {
            Some(self.entries[idx].pos)
        } else {
            proof {
                if self.as_map().contains_key(key@) {
                    let i = choose|i: int|
                        0 <= i < self.entries@.len() && self.entries@[i].key@ == key@;
                    lemma_key_lt_total(self.entries@[i].key@, key@);
                }
            }
            None
        }
    }

    /// Binds `key` to `pos`, returning the position it displaces when
    /// the key was already present.
    pub fn insert(&mut self, key: Vec<u8>, pos: CommandPos) -> (displaced: Option<CommandPos>)
        requires
            old(self).wf(),
        ensures
            final(self).wf(),
            final(self).as_map() == old(self).as_map().insert(key@, pos),
            displaced == (if old(self).as_map().contains_key(key@) {
                Some(old(self).as_map()[key@])
            } else {
                None::<CommandPos>
            }),
            final(self).len_sum() == old(self).len_sum() + pos.len - (match displaced {
                Some(d) => d.len,
                None => 0,
            }),
    {
        proof {
            lemma_sorted_distinct(self.entries@);
            lemma_entries_map_char(self.entries@);
        }
        let ghost s0 = self.entries@;
        let (found, idx) = self.find(&key);
        if found {
            let old_pos = self.entries[idx].pos;
            self.entries[idx] = IndexEntry { key, pos };
            proof {
                let s1 = self.entries@;
                assert(s1 == s0.update(idx as int, s1[idx as int]));
                assert(forall|i: int| 0 <= i < s0.len() && i != idx ==> s1[i] == #[trigger] s0[i]);
                assert(s1[idx as int].key@ == s0[idx as int].key@);
                assert(entries_sorted(s1));
                lemma_sorted_distinct(s1);
                lemma_entries_map_char(s1);
                assert(entries_map(s1) =~= entries_map(s0).insert(key@, pos)) by {
                    assert forall|k: Seq<u8>| #[trigger]
                        entries_map(s1).contains_key(k) implies entries_map(s0).insert(
                        key@,
                        pos,
                    ).contains_key(k) && entries_map(s1)[k] == entries_map(s0).insert(
                        key@,
                        pos,
                    )[k] by {
                        let i = choose|i: int| 0 <= i < s1.len() && s1[i].key@ == k;
                        if i == idx {
                            assert(entries_map(s1)[k] == pos);
                        } else {
                            assert(s0[i].key@ == k);
                            assert(k != key@);
                            assert(entries_map(s1)[k] == s1[i].pos);
                            assert(entries_map(s0)[k] == s0[i].pos);
                        }
                    }
                    assert forall|k: Seq<u8>| #[trigger]
                        entries_map(s0).insert(key@, pos).contains_key(k) implies entries_map(
                        s1,
                    ).contains_key(k) by {
                        if k == key@ {
                            assert(s1[idx as int].key@ == k);
                        } else {
                            let i = choose|i: int| 0 <= i < s0.len() && s0[i].key@ == k;
                            assert(s1[i].key@ == k);
                        }
                    }
                }
                lemma_len_sum_update(s0, idx as int, s1[idx as int]);
            }
            Some(old_pos)
        } else {
            proof {
                if self.as_map().contains_key(key@) {
                    let i = choose|i: int| 0 <= i < s0.len() && s0[i].key@ == key@;
                    lemma_key_lt_total(s0[i].key@, key@);
                }
            }
            let entry = IndexEntry { key, pos };
            proof {
                lemma_len_sum_insert(s0, idx as int, entry);
            }
            self.entries.insert(idx, entry);
            proof {
                let s1 = self.entries@;
                let ki = s1[idx as int].key@;
                assert(forall|i: int| 0 <= i < idx ==> s1[i] == #[trigger] s0[i]);
                assert(forall|i: int|
                    idx < i < s1.len() ==> s1[i] == #[trigger] s0[i - 1]);
                assert forall|i: int, j: int| 0 <= i < j < s1.len() implies key_lt(
                    s1[i].key@,
                    s1[j].key@,
                ) by {
                    if i == idx {
                        assert(key_lt(ki, s1[j].key@));
                    } else if j == idx {
                        assert(key_lt(s1[i].key@, ki));
                    }
                }
                lemma_sorted_distinct(s1);
                lemma_entries_map_char(s1);
                assert(entries_map(s1) =~= entries_map(s0).insert(key@, pos)) by {
                    assert forall|k: Seq<u8>| #[trigger]
                        entries_map(s1).contains_key(k) implies entries_map(s0).insert(
                        key@,
                        pos,
                    ).contains_key(k) && entries_map(s1)[k] == entries_map(s0).insert(
                        key@,
                        pos,
                    )[k] by {
                        let i = choose|i: int| 0 <= i < s1.len() && s1[i].key@ == k;
                        if i == idx {
                            assert(entries_map(s1)[k] == pos);
                        } else if i < idx {
                            assert(s0[i].key@ == k);
                            assert(k != key@);
                        } else {
                            assert(s0[i - 1].key@ == k);
                            assert(k != key@);
                        }
                    }
                    assert forall|k: Seq<u8>| #[trigger]
                        entries_map(s0).insert(key@, pos).contains_key(k) implies entries_map(
                        s1,
                    ).contains_key(k) by {
                        if k == key@ {
                            assert(s1[idx as int].key@ == k);
                        } else {
                            let i = choose|i: int| 0 <= i < s0.len() && s0[i].key@ == k;
                            if i < idx {
                                assert(s1[i].key@ == k);
                            } else {
                                assert(s1[i + 1].key@ == k);
                            }
                        }
                    }
                }
            }
            None
        }
    }

    /// Unbinds `key`, returning the position it was bound to; `None`
    /// leaves the index unchanged.
    pub fn remove(&mut self, key: &Vec<u8>) -> (removed: Option<CommandPos>)
        requires
            old(self).wf(),
        ensures
            final(self).wf(),
            removed == (if old(self).as_map().contains_key(key@) {
                Some(old(self).as_map()[key@])
            } else {
                None::<CommandPos>
            }),
            final(self).as_map() == old(self).as_map().remove(key@),
            final(self).len_sum() == old(self).len_sum() - (match removed {
                Some(d) => d.len,
                None => 0,
            }),
            removed is None ==> *final(self) == *old(self),
    {
        proof {
            lemma_sorted_distinct(self.entries@);
            lemma_entries_map_char(self.entries@);
        }
        let ghost s0 = self.entries@;
        let (found, idx) = self.find(key);
        if found {
            proof {
                lemma_len_sum_remove(s0, idx as int);
            }
            let entry = self.entries.remove(idx);
            proof {
                let s1 = self.entries@;
                assert(forall|i: int| 0 <= i < idx ==> s1[i] == #[trigger] s0[i]);
                assert(forall|i: int|
                    idx <= i < s1.len() ==> s1[i] == #[trigger] s0[i + 1]);
                assert forall|i: int, j: int| 0 <= i < j < s1.len() implies key_lt(
                    s1[i].key@,
                    s1[j].key@,
                ) by {}
                lemma_sorted_distinct(s1);
                lemma_entries_map_char(s1);
                assert(entries_map(s1) =~= entries_map(s0).remove(key@)) by {
                    assert forall|k: Seq<u8>| #[trigger]
                        entries_map(s1).contains_key(k) implies entries_map(s0).remove(
                        key@,
                    ).contains_key(k) && entries_map(s1)[k] == entries_map(s0).remove(key@)[k] by {
                        let i = choose|i: int| 0 <= i < s1.len() && s1[i].key@ == k;
                        if i < idx {
                            assert(s0[i].key@ == k);
                        } else {
                            assert(s0[i + 1].key@ == k);
                        }
                    }
                    assert forall|k: Seq<u8>| #[trigger]
                        entries_map(s0).remove(key@).contains_key(k) implies entries_map(
                        s1,
                    ).contains_key(k) by {
                        let i = choose|i: int| 0 <= i < s0.len() && s0[i].key@ == k;
                        if i < idx {
                            assert(s1[i].key@ == k);
                        } else {
                            assert(i != idx);
                            assert(s1[i - 1].key@ == k);
                        }
                    }
                }
            }
            Some(entry.pos)
        } else {
            proof {
                if self.as_map().contains_key(key@) {
                    let i = choose|i: int| 0 <= i < s0.len() && s0[i].key@ == key@;
                    lemma_key_lt_total(s0[i].key@, key@);
                }
                assert(entries_map(s0) =~= entries_map(s0).remove(key@));
            }
            None
        }
    }
}

} // verus!
