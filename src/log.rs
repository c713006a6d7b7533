//! The log: an append-only byte stream of newline-terminated records, read
//! by offset.
use vstd::prelude::*;

use crate::error::StoreError;
use crate::record::{decode_line, record_key, record_value, NEWLINE};

verus! {

/// The offset just past the line that starts at `start`: past its newline,
/// or the end of the log where the line has none.
pub open spec fn line_end(log: Seq<u8>, start: int) -> int
    decreases log.len() - start,
{
    if start >= log.len() {
        log.len() as int
    } else if log[start] == NEWLINE {
        start + 1
    } else {
        line_end(log, start + 1)
    }
}

/// The bytes of the line that starts at `start`, its newline included.
pub open spec fn line_at(log: Seq<u8>, start: int) -> Seq<u8> {
    log.subrange(start, line_end(log, start))
}

/// Whether a line can begin at `off`: the start of the log, or just past a newline.
pub open spec fn is_boundary(log: Seq<u8>, off: int) -> bool {
    off == 0 || (0 < off <= log.len() && log[off - 1] == NEWLINE)
}

/// Whether the log's last line is complete: it is empty or ends in a newline.
pub open spec fn is_terminated(log: Seq<u8>) -> bool {
    log.len() == 0 || log.last() == NEWLINE
}

/// A line that starts inside the log ends after its start, and holds no newline but its last byte.
pub proof fn lemma_line_end(log: Seq<u8>, start: int)
    requires
        0 <= start < log.len(),
    ensures
        start < line_end(log, start) <= log.len(),
        line_end(log, start) == log.len() || log[line_end(log, start) - 1] == NEWLINE,
        forall|j: int| start <= j < line_end(log, start) - 1 ==> log[j] != NEWLINE,
    decreases log.len() - start,
{
    if log[start] != NEWLINE {
        if start + 1 < log.len() {
            lemma_line_end(log, start + 1);
        } else {
            assert(line_end(log, start + 1) == log.len());
        }
    }
}

/// Bytes appended after a complete last line do not change where the earlier
/// lines end.
pub proof fn lemma_line_end_append(a: Seq<u8>, b: Seq<u8>, start: int)
    requires
        is_terminated(a),
        0 <= start < a.len(),
    ensures
        line_end(a + b, start) == line_end(a, start),
        line_at(a + b, start) == line_at(a, start),
    decreases a.len() - start,
{
    let s = a + b;
    assert(s[start] == a[start]);
    if a[start] != NEWLINE {
        assert(start + 1 < a.len());
        lemma_line_end_append(a, b, start + 1);
    }
    lemma_line_end(a, start);
    assert(line_at(s, start) =~= line_at(a, start));
}

/// Within one line, the end is the same from every position before its newline.
pub proof fn lemma_line_end_skip(log: Seq<u8>, start: int, mid: int)
    requires
        0 <= start <= mid <= log.len(),
        forall|j: int| start <= j < mid ==> log[j] != NEWLINE,
    ensures
        line_end(log, start) == line_end(log, mid),
    decreases mid - start,
{
    if start < mid {
        lemma_line_end_skip(log, start + 1, mid);
    }
}

/// The log's bytes, held in memory.
pub struct LogStore {
    bytes: Vec<u8>,
}

impl View for LogStore {
    type V = Seq<u8>;

    closed spec fn view(&self) -> Seq<u8> {
        self.bytes@
    }
}

impl LogStore {
    /// An empty log.
    pub fn new() -> (r: LogStore)
        ensures
            r@ == Seq::<u8>::empty(),
    {
        LogStore { bytes: Vec::new() }
    }

    /// The log that holds `bytes`.
    pub fn from_bytes(bytes: Vec<u8>) -> (r: LogStore)
        ensures
            r@ == bytes@,
    {
        LogStore { bytes }
    }

    /// The log's bytes.
    pub fn as_bytes(&self) -> (r: &[u8])
        ensures
            r@ == self@,
    {
        self.bytes.as_slice()
    }

    /// The number of bytes in the log, which is where the next record begins.
    pub fn len(&self) -> (r: usize)
        ensures
            r == self@.len(),
    {
        self.bytes.len()
    }

    /// Whether the log's last line is complete.
    pub fn is_terminated(&self) -> (r: bool)
        ensures
            r == is_terminated(self@),
    {
        let n = self.bytes.len();
        n == 0 || self.bytes[n - 1] == NEWLINE
    }

    /// Appends `rec` and returns the offset at which it begins.
    pub fn append(&mut self, rec: &[u8]) -> (r: usize)
        ensures
            final(self)@ == old(self)@ + rec@,
            r == old(self)@.len(),
    {
        let start = self.bytes.len();
        let mut i: usize = 0;
        while i < rec.len()
            invariant
                i <= rec@.len(),
                self@ == old(self)@ + rec@.subrange(0, i as int),
            decreases rec@.len() - i,
        {
            self.bytes.push(rec[i]);
            i = i + 1;
            assert(self@ =~= old(self)@ + rec@.subrange(0, i as int));
        }
        assert(rec@.subrange(0, rec@.len() as int) =~= rec@);
        start
    }

    /// The end of the line that starts at `start`.
    pub fn line_end(&self, start: usize) -> (r: usize)
        requires
            start <= self@.len(),
        ensures
            r == line_end(self@, start as int),
    {
        let mut i: usize = start;
        while i < self.bytes.len() && self.bytes[i] != NEWLINE
            invariant
                start <= i <= self@.len(),
                line_end(self@, start as int) == line_end(self@, i as int),
            decreases self@.len() - i,
        {
            i = i + 1;
        }
        if i < self.bytes.len() {
            i + 1
        } else {
            i
        }
    }

    /// The key and value of the record that starts at `offset`. `Corruption`
    /// where no line starts there or the line holds no key.
    pub fn read_at(&self, offset: usize) -> (r: Result<(Vec<u8>, Vec<u8>), StoreError>)
        ensures
            match r {
                Ok(kv) => offset < self@.len() && is_boundary(self@, offset as int) && record_key(
                    line_at(self@, offset as int),
                ) == Some(kv.0@) && record_value(line_at(self@, offset as int)) == kv.1@,
                Err(e) => e == StoreError::Corruption && !(offset < self@.len() && is_boundary(
                    self@,
                    offset as int,
                ) && record_key(line_at(self@, offset as int)) is Some),
            },
    {
        if offset >= self.bytes.len() {
            return Err(StoreError::Corruption);
        }
        if offset > 0 && self.bytes[offset - 1] != NEWLINE {
            return Err(StoreError::Corruption);
        }
        let end = self.line_end(offset);
        proof {
            lemma_line_end(self@, offset as int);
        }
        match decode_line(self.bytes.as_slice(), offset, end) {
            Some(kv) => Ok(kv),
            None => Err(StoreError::Corruption),
        }
    }
}

} // verus!
