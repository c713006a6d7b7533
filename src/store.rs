//! The store: a log and its index, kept consistent by every write.
use vstd::prelude::*;
use vstd::slice::slice_to_vec;

use crate::error::StoreError;
use crate::index::{
    entries_hold, index_from, index_of, lemma_index_from_append, lemma_index_from_entries,
    lemma_index_from_push_newline, KeyIndex,
};
use crate::log::{is_terminated, lemma_line_end_skip, line_at, line_end, LogStore};
use crate::record::{
    encode_record, is_key, lemma_decode_record, record_bytes, record_value, NEWLINE,
    SPACE,
};
use crate::words::{bytes_eq, is_token, space_len};

verus! {

/// The log with its last line complete: a newline is added after an
/// unfinished last line, and nothing is added otherwise.
pub open spec fn closed_log(log: Seq<u8>) -> Seq<u8> {
    if is_terminated(log) {
        log
    } else {
        log.push(NEWLINE)
    }
}

/// The log after `put(k, v)`: the record follows the log's last complete line.
pub open spec fn append_record(log: Seq<u8>, k: Seq<u8>, v: Seq<u8>) -> Seq<u8> {
    closed_log(log) + record_bytes(k, v)
}

/// The value that `get(k)` finds in the log: that of the record the index
/// points to, which is the latest record of `k`; `None` where no line has
/// key `k`.
pub open spec fn lookup_value(log: Seq<u8>, k: Seq<u8>) -> Option<Seq<u8>> {
    if index_of(log).contains_key(k) {
        Some(record_value(line_at(log, index_of(log)[k] as int)))
    } else {
        None
    }
}

/// Putting a record indexes its key at the offset where the record begins,
/// and leaves every other key where it was.
pub proof fn lemma_index_after_put(log: Seq<u8>, k: Seq<u8>, v: Seq<u8>)
    requires
        is_key(k),
        is_token(v),
    ensures
        index_of(append_record(log, k, v)) == index_of(log).insert(k, closed_log(log).len()),
        line_at(append_record(log, k, v), closed_log(log).len() as int) == record_bytes(k, v),
        is_terminated(append_record(log, k, v)),
{
    let t = closed_log(log);
    let rec = record_bytes(k, v);
    let s = t + rec;
    if !is_terminated(log) {
        lemma_index_from_push_newline(log, 0, Map::empty());
    }
    assert(index_of(t) == index_of(log));
    assert(is_terminated(t));
    lemma_index_from_append(t, rec, 0, Map::empty());
    lemma_decode_record(k, v);
    let tl = t.len() as int;
    assert forall|j: int| tl <= j < s.len() - 1 implies s[j] != NEWLINE by {
        let r = j - tl;
        assert(s[j] == rec[r]);
        if r < k.len() {
            assert(rec[r] == k[r]);
            assert(space_len(k, r) == 0);
        } else if r == k.len() {
            assert(rec[r] == SPACE);
        } else {
            assert(rec[r] == v[r - k.len() - 1]);
            assert(space_len(v, r - k.len() - 1) == 0);
        }
    }
    lemma_line_end_skip(s, tl, s.len() - 1);
    assert(s[s.len() - 1] == NEWLINE);
    assert(line_end(s, s.len() - 1) == s.len());
    assert(line_at(s, tl) =~= rec);
    assert(index_from(s, s.len() as int, index_of(t).insert(k, tl as nat)) == index_of(t).insert(
        k,
        tl as nat,
    ));
}

/// A key-value store over one append-only log.
pub struct Store {
    log: LogStore,
    index: KeyIndex,
}

impl View for Store {
    type V = Seq<u8>;

    /// The bytes of the log; the index is derived from them.
    closed spec fn view(&self) -> Seq<u8> {
        self.log@
    }
}

impl Store {
    /// The index is exactly what recovery would rebuild from the log.
    pub closed spec fn wf(&self) -> bool {
        self.index.wf() && self.index@ == index_of(self.log@)
    }

    /// The index the store keeps up to date through its writes.
    pub closed spec fn index_view(&self) -> Map<Seq<u8>, nat> {
        self.index@
    }

    /// The index a store keeps through its writes is the one that recovery
    /// rebuilds from its log: after a restart every key is found where it was.
    pub proof fn lemma_index_is_recovered(&self)
        requires
            self.wf(),
        ensures
            self.index_view() == index_of(self@),
    {
    }

    /// A store over an empty log.
    pub fn new() -> (r: Store)
        ensures
            r.wf(),
            r@ == Seq::<u8>::empty(),
    {
        let log = LogStore::new();
        let index = KeyIndex::recover(&log);
        Store { log, index }
    }

    /// A store over a log that already holds `bytes`, its index rebuilt by
    /// recovery.
    pub fn recover(bytes: Vec<u8>) -> (r: Store)
        ensures
            r.wf(),
            r@ == bytes@,
    {
        let log = LogStore::from_bytes(bytes);
        let index = KeyIndex::recover(&log);
        Store { log, index }
    }

    /// The log's bytes.
    pub fn log_bytes(&self) -> (r: &[u8])
        ensures
            r@ == self@,
    {
        self.log.as_bytes()
    }

    /// The bytes that `put(key, value)` would append, so that they can be made
    /// durable before the store takes them; `Validation` where the key is empty
    /// or either holds whitespace.
    pub fn prepare_put(&self, key: &[u8], value: &[u8]) -> (r: Result<Vec<u8>, StoreError>)
        ensures
            match r {
                Ok(bytes) => is_key(key@) && is_token(value@) && self@ + bytes@ == append_record(
                    self@,
                    key@,
                    value@,
                ),
                Err(e) => !(is_key(key@) && is_token(value@)) && e == StoreError::Validation,
            },
    {
        match encode_record(key, value) {
            Ok(rec) => {
                let mut out: Vec<u8> = Vec::new();
                if !self.log.is_terminated() {
                    out.push(NEWLINE);
                }
                let mut i: usize = 0;
                while i < rec.len()
                    invariant
                        i <= rec@.len(),
                        self@ + out@ == closed_log(self@) + rec@.subrange(0, i as int),
                    decreases rec@.len() - i,
                {
                    let ghost prev = out@;
                    out.push(rec[i]);
                    assert(self@ + out@ =~= (self@ + prev).push(rec@[i as int]));
                    assert(rec@.subrange(0, i + 1) =~= rec@.subrange(0, i as int).push(rec@[i as int]));
                    i = i + 1;
                    assert(self@ + out@ =~= closed_log(self@) + rec@.subrange(0, i as int));
                }
                assert(rec@.subrange(0, rec@.len() as int) =~= rec@);
                Ok(out)
            },
            Err(e) => Err(e),
        }
    }

    /// Appends the record of `key` and `value` to the log, then indexes
    /// `key` at the record's offset. `Validation`, with nothing changed, where
    /// the key is empty or either holds whitespace.
    pub fn put(&mut self, key: &[u8], value: &[u8]) -> (r: Result<(), StoreError>)
        requires
            old(self).wf(),
        ensures
            final(self).wf(),
            match r {
                Ok(()) => is_key(key@) && is_token(value@) && final(self)@ == append_record(
                    old(self)@,
                    key@,
                    value@,
                ),
                Err(e) => !(is_key(key@) && is_token(value@)) && e == StoreError::Validation
                    && final(self)@ == old(self)@,
            },
    {
        let rec = match encode_record(key, value) {
            Ok(rec) => rec,
            Err(e) => {
                return Err(e);
            },
        };
        proof {
            lemma_index_after_put(self@, key@, value@);
        }
        if !self.log.is_terminated() {
            let nl: Vec<u8> = vec![NEWLINE];
            self.log.append(nl.as_slice());
            assert(nl@ =~= seq![NEWLINE]);
            assert(self.log@ =~= closed_log(old(self)@));
        }
        let offset = self.log.append(rec.as_slice());
        self.index.record(slice_to_vec(key), offset);
        Ok(())
    }

    /// The offset of the latest record of `key`, if the log has one.
    pub fn offset_of(&self, key: &[u8]) -> (r: Option<usize>)
        requires
            self.wf(),
        ensures
            match r {
                Some(o) => index_of(self@).contains_key(key@) && index_of(self@)[key@] == o as nat,
                None => !index_of(self@).contains_key(key@),
            },
    {
        self.index.lookup(key)
    }

    /// The value of the latest record of `key`, or `None` where the log holds
    /// no record of it. The record is read at the offset that the index holds
    /// and its key is checked: `Corruption` where it does not match, which
    /// the store's own invariant rules out.
    pub fn get(&self, key: &[u8]) -> (r: Result<Option<Vec<u8>>, StoreError>)
        requires
            self.wf(),
        ensures
            match r {
                Ok(Some(v)) => lookup_value(self@, key@) == Some(v@),
                Ok(None) => lookup_value(self@, key@) is None,
                Err(_) => false,
            },
    {
        match self.index.lookup(key) {
            None => Ok(None),
            Some(offset) => {
                proof {
                    lemma_index_from_entries(self@, 0, Map::empty());
                    assert(entries_hold(self@, index_of(self@)));
                    assert(index_of(self@).contains_key(key@));
                }
                match self.log.read_at(offset) {
                    Ok(kv) => {
                        if bytes_eq(kv.0.as_slice(), key) {
                            Ok(Some(kv.1))
                        } else {
                            Err(StoreError::Corruption)
                        }
                    },
                    Err(e) => Err(e),
                }
            },
        }
    }
}

} // verus!
