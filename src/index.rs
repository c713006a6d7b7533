//! The key index: each key mapped to the offset of its latest record, and the
//! recovery that rebuilds it by replaying the log.
use vstd::prelude::*;

use crate::log::{
    is_boundary, is_terminated, lemma_line_end, lemma_line_end_append, lemma_line_end_skip,
    line_at, line_end, LogStore,
};
use crate::record::{decode_line, record_key, NEWLINE};
use crate::words::{bytes_eq, lemma_words_push_space};

verus! {

/// The index that replaying the log from the line at `start` onto `idx`
/// gives: each line with a key maps that key to the line's offset, a later
/// line overriding an earlier one, and a line without a key is passed over.
pub open spec fn index_from(log: Seq<u8>, start: int, idx: Map<Seq<u8>, nat>) -> Map<
    Seq<u8>,
    nat,
>
    decreases log.len() - start,
{
    if start < 0 || start >= log.len() {
        idx
    } else {
        let end = line_end(log, start);
        let next = match record_key(line_at(log, start)) {
            Some(k) => idx.insert(k, start as nat),
            None => idx,
        };
        // A line always ends after it starts and within the log
        // (lemma_line_end); the guard only states that where the recursion
        // needs it to terminate.
        if start < end <= log.len() {
            index_from(log, end, next)
        } else {
            next
        }
    }
}

/// The index that recovery rebuilds from the whole log.
pub open spec fn index_of(log: Seq<u8>) -> Map<Seq<u8>, nat> {
    index_from(log, 0, Map::empty())
}

/// Every entry of `idx` names a line that starts inside the log and holds
/// that entry's key.
pub open spec fn entries_hold(log: Seq<u8>, idx: Map<Seq<u8>, nat>) -> bool {
    forall|k: Seq<u8>|
        #[trigger] idx.contains_key(k) ==> idx[k] < log.len() && is_boundary(log, idx[k] as int)
            && record_key(line_at(log, idx[k] as int)) == Some(k)
}

/// Replaying a log whose last line is complete, followed by more bytes, is
/// replaying the log and then the bytes that follow it.
pub proof fn lemma_index_from_append(a: Seq<u8>, b: Seq<u8>, start: int, idx: Map<Seq<u8>, nat>)
    requires
        is_terminated(a),
        0 <= start <= a.len(),
    ensures
        index_from(a + b, start, idx) == index_from(a + b, a.len() as int, index_from(a, start, idx)),
    decreases a.len() - start,
{
    if start < a.len() {
        lemma_line_end(a, start);
        lemma_line_end_append(a, b, start);
        let end = line_end(a, start);
        let next = match record_key(line_at(a, start)) {
            Some(k) => idx.insert(k, start as nat),
            None => idx,
        };
        lemma_index_from_append(a, b, end, next);
    }
}

/// A newline put after the log changes nothing that replaying it gives.
pub proof fn lemma_index_from_push_newline(a: Seq<u8>, start: int, idx: Map<Seq<u8>, nat>)
    requires
        0 <= start <= a.len(),
    ensures
        index_from(a.push(NEWLINE), start, idx) == index_from(a, start, idx),
    decreases a.len() - start,
{
    let s = a.push(NEWLINE);
    if start == a.len() {
        assert(line_end(s, start) == start + 1);
        assert(line_at(s, start) =~= seq![NEWLINE]);
        assert(seq![NEWLINE] =~= Seq::<u8>::empty().push(NEWLINE));
        lemma_words_push_space(Seq::<u8>::empty(), NEWLINE);
        assert(index_from(s, start + 1, idx) == idx);
    } else {
        lemma_line_end(a, start);
        let end = line_end(a, start);
        if a[end - 1] == NEWLINE {
            assert(a + seq![NEWLINE] =~= s);
            lemma_line_end_append(a.subrange(0, end), a.subrange(end, a.len() as int).push(NEWLINE), start);
            lemma_line_end_append(a.subrange(0, end), a.subrange(end, a.len() as int), start);
            assert(a.subrange(0, end) + a.subrange(end, a.len() as int).push(NEWLINE) =~= s);
            assert(a.subrange(0, end) + a.subrange(end, a.len() as int) =~= a);
            let next = match record_key(line_at(a, start)) {
                Some(k) => idx.insert(k, start as nat),
                None => idx,
            };
            lemma_index_from_push_newline(a, end, next);
        } else {
            // The line from `start` is the log's unfinished last line.
            assert(end == a.len());
            assert forall|j: int| start <= j < a.len() implies s[j] != NEWLINE by {
                if j < a.len() - 1 {
                    assert(a[j] != NEWLINE);
                }
            }
            lemma_line_end_skip(s, start, a.len() as int);
            assert(line_end(s, a.len() as int) == a.len() + 1);
            assert(line_at(s, start) =~= line_at(a, start).push(NEWLINE));
            lemma_words_push_space(line_at(a, start), NEWLINE);
            let next = match record_key(line_at(a, start)) {
                Some(k) => idx.insert(k, start as nat),
                None => idx,
            };
            assert(index_from(s, (a.len() + 1) as int, next) == next);
            assert(index_from(a, a.len() as int, next) == next);
        }
    }
}

/// Replaying from a line start keeps every entry pointing at a line that
/// holds its key.
pub proof fn lemma_index_from_entries(log: Seq<u8>, start: int, idx: Map<Seq<u8>, nat>)
    requires
        0 <= start,
        start < log.len() ==> is_boundary(log, start),
        entries_hold(log, idx),
    ensures
        entries_hold(log, index_from(log, start, idx)),
    decreases log.len() - start,
{
    if start < log.len() {
        lemma_line_end(log, start);
        let end = line_end(log, start);
        let next = match record_key(line_at(log, start)) {
            Some(k) => idx.insert(k, start as nat),
            None => idx,
        };
        assert(entries_hold(log, next));
        lemma_index_from_entries(log, end, next);
    }
}

/// Replaying from `start` keeps every key already indexed before `start`,
/// at the same offset or a later one.
pub proof fn lemma_index_from_keeps(log: Seq<u8>, start: int, idx: Map<Seq<u8>, nat>)
    requires
        0 <= start,
        forall|k: Seq<u8>| #[trigger] idx.contains_key(k) ==> idx[k] < start,
    ensures
        forall|k: Seq<u8>|
            #[trigger] idx.contains_key(k) ==> index_from(log, start, idx).contains_key(k)
                && index_from(log, start, idx)[k] >= idx[k],
    decreases log.len() - start,
{
    if start < log.len() {
        lemma_line_end(log, start);
        let end = line_end(log, start);
        let next = match record_key(line_at(log, start)) {
            Some(k) => idx.insert(k, start as nat),
            None => idx,
        };
        lemma_index_from_keeps(log, end, next);
        assert forall|k: Seq<u8>| #[trigger] idx.contains_key(k) implies next.contains_key(k)
            && next[k] >= idx[k] by {}
    }
}

/// Replaying from a line start indexes each key at or after every line
/// from `start` on that holds it.
pub proof fn lemma_index_from_latest(log: Seq<u8>, start: int, idx: Map<Seq<u8>, nat>)
    requires
        0 <= start,
        start < log.len() ==> is_boundary(log, start),
        forall|k: Seq<u8>| #[trigger] idx.contains_key(k) ==> idx[k] < start,
    ensures
        forall|k: Seq<u8>, j: int|
            #![trigger index_from(log, start, idx).contains_key(k), line_at(log, j)]
            index_from(log, start, idx).contains_key(k) && start <= j < log.len()
                && is_boundary(log, j) && record_key(line_at(log, j)) == Some(k) ==> j
                <= index_from(log, start, idx)[k],
    decreases log.len() - start,
{
    if start < log.len() {
        lemma_line_end(log, start);
        let end = line_end(log, start);
        let next = match record_key(line_at(log, start)) {
            Some(k) => idx.insert(k, start as nat),
            None => idx,
        };
        let r = index_from(log, start, idx);
        assert(r == index_from(log, end, next));
        lemma_index_from_latest(log, end, next);
        lemma_index_from_keeps(log, end, next);
        assert forall|k: Seq<u8>, j: int|
            r.contains_key(k) && start <= j < log.len() && is_boundary(log, j) && record_key(
                line_at(log, j),
            ) == Some(k) implies j <= r[k] by {
            if j == start {
                assert(next.contains_key(k) && next[k] == start);
            } else if j < end {
                assert(log[j - 1] != NEWLINE);
            }
        }
    }
}

/// The index points at the latest record of each key: no line that starts
/// after a key's indexed offset holds that key.
pub proof fn lemma_index_is_latest(log: Seq<u8>)
    ensures
        forall|k: Seq<u8>, j: int|
            #![trigger index_of(log).contains_key(k), line_at(log, j)]
            index_of(log).contains_key(k) && index_of(log)[k] < j < log.len() && is_boundary(
                log,
                j,
            ) ==> record_key(line_at(log, j)) != Some(k),
{
    lemma_index_from_latest(log, 0, Map::empty());
}

/// Replaying onto `base` overlaid with `idx` is overlaying `base` with the
/// replay onto `idx`.
pub proof fn lemma_index_from_overlay(
    log: Seq<u8>,
    start: int,
    base: Map<Seq<u8>, nat>,
    idx: Map<Seq<u8>, nat>,
)
    ensures
        index_from(log, start, base.union_prefer_right(idx)) == base.union_prefer_right(
            index_from(log, start, idx),
        ),
    decreases log.len() - start,
{
    if 0 <= start < log.len() {
        lemma_line_end(log, start);
        let end = line_end(log, start);
        match record_key(line_at(log, start)) {
            Some(k) => {
                assert(base.union_prefer_right(idx).insert(k, start as nat) =~= base.union_prefer_right(
                    idx.insert(k, start as nat),
                ));
                lemma_index_from_overlay(log, end, base, idx.insert(k, start as nat));
            },
            None => {
                lemma_index_from_overlay(log, end, base, idx);
            },
        }
    }
}

/// The map from each key to the offset of its latest record.
pub struct KeyIndex {
    keys: Vec<Vec<u8>>,
    offsets: Vec<usize>,
    model: Ghost<Map<Seq<u8>, nat>>,
}

impl View for KeyIndex {
    type V = Map<Seq<u8>, nat>;

    closed spec fn view(&self) -> Map<Seq<u8>, nat> {
        self.model@
    }
}

impl KeyIndex {
    /// The entries are stored once each, side by side with their offsets,
    /// and are exactly the map the index stands for.
    pub closed spec fn wf(&self) -> bool {
        &&& self.keys@.len() == self.offsets@.len()
        &&& forall|i: int, j: int|
            0 <= i < j < self.keys@.len() ==> #[trigger] self.keys@[i]@ != #[trigger] self.keys@[j]@
        &&& forall|i: int|
            0 <= i < self.keys@.len() ==> #[trigger] self.model@.contains_key(self.keys@[i]@)
                && self.model@[self.keys@[i]@] == self.offsets@[i] as nat
        &&& forall|k: Seq<u8>|
            #[trigger] self.model@.contains_key(k) ==> exists|i: int|
                0 <= i < self.keys@.len() && #[trigger] self.keys@[i]@ == k
    }

    /// An index with no key.
    pub fn new() -> (r: KeyIndex)
        ensures
            r.wf(),
            r@ == Map::<Seq<u8>, nat>::empty(),
    {
        KeyIndex { keys: Vec::new(), offsets: Vec::new(), model: Ghost(Map::empty()) }
    }

    /// Where `key` stands in the entries, if it is there.
    fn position(&self, key: &[u8]) -> (r: Option<usize>)
        requires
            self.wf(),
        ensures
            match r {
                Some(i) => i < self.keys@.len() && self.keys@[i as int]@ == key@,
                None => !self@.contains_key(key@),
            },
    {
        let mut i: usize = 0;
        while i < self.keys.len()
            invariant
                self.wf(),
                i <= self.keys@.len(),
                forall|j: int| 0 <= j < i ==> self.keys@[j]@ != key@,
            decreases self.keys@.len() - i,
        {
            if bytes_eq(self.keys[i].as_slice(), key) {
                return Some(i);
            }
            i = i + 1;
        }
        None
    }

    /// The offset recorded for `key`, if any.
    pub fn lookup(&self, key: &[u8]) -> (r: Option<usize>)
        requires
            self.wf(),
        ensures
            match r {
                Some(o) => self@.contains_key(key@) && self@[key@] == o as nat,
                None => !self@.contains_key(key@),
            },
    {
        match self.position(key) {
            Some(i) => {
                assert(self.model@.contains_key(self.keys@[i as int]@));
                Some(self.offsets[i])
            },
            None => None,
        }
    }

    /// Records `offset` for `key`, replacing any earlier offset.
    pub fn record(&mut self, key: Vec<u8>, offset: usize)
        requires
            old(self).wf(),
        ensures
            final(self).wf(),
            final(self)@ == old(self)@.insert(key@, offset as nat),
    {
        let ghost k = key@;
        match self.position(key.as_slice()) {
            Some(i) => {
                self.offsets.set(i, offset);
                self.model = Ghost(self.model@.insert(k, offset as nat));
                assert forall|q: Seq<u8>| #[trigger] self.model@.contains_key(q) implies exists|j: int|
                    0 <= j < self.keys@.len() && #[trigger] self.keys@[j]@ == q by {
                    if q != k {
                        assert(old(self).model@.contains_key(q));
                        let j = choose|j: int| 0 <= j < old(self).keys@.len() && #[trigger] old(self).keys@[j]@ == q;
                        assert(self.keys@[j]@ == q);
                    } else {
                        assert(self.keys@[i as int]@ == q);
                    }
                }
            },
            None => {
                self.keys.push(key);
                self.offsets.push(offset);
                self.model = Ghost(self.model@.insert(k, offset as nat));
                let ghost last = self.keys@.len() - 1;
                assert(self.keys@[last]@ == k);
                assert forall|i: int| 0 <= i < last implies self.keys@[i]@ != k by {
                    assert(old(self).model@.contains_key(old(self).keys@[i]@));
                }
                assert forall|q: Seq<u8>| #[trigger] self.model@.contains_key(q) implies exists|j: int|
                    0 <= j < self.keys@.len() && #[trigger] self.keys@[j]@ == q by {
                    if q != k {
                        assert(old(self).model@.contains_key(q));
                        let j = choose|j: int| 0 <= j < old(self).keys@.len() && #[trigger] old(self).keys@[j]@ == q;
                        assert(self.keys@[j]@ == q);
                    } else {
                        assert(self.keys@[last]@ == q);
                    }
                }
            },
        }
    }

    /// Rebuilds the index by scanning the log from its first byte, line by
    /// line: each line with a key records that key at the line's offset, so a
    /// later record of a key overrides an earlier one; a line without a key is
    /// passed over, and the scan still moves past all of its bytes.
    pub fn recover(log: &LogStore) -> (r: KeyIndex)
        ensures
            r.wf(),
            r@ == index_of(log@),
    {
        let mut idx = KeyIndex::new();
        let mut start: usize = 0;
        let n = log.len();
        while start < n
            invariant
                n == log@.len(),
                start <= n,
                idx.wf(),
                index_from(log@, start as int, idx@) == index_of(log@),
            decreases n - start,
        {
            let end = log.line_end(start);
            proof {
                lemma_line_end(log@, start as int);
            }
            match decode_line(log.as_bytes(), start, end) {
                Some(kv) => {
                    idx.record(kv.0, start);
                },
                None => {},
            }
            start = end;
        }
        idx
    }
}

} // verus!
