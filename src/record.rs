//! The line format of one record: `<key> <value>\n`.
use vstd::prelude::*;

use crate::error::StoreError;
use crate::words::{
    is_token, is_token_bytes, lemma_scan_skip, lemma_space_len_within, piece, scan, space_len,
    split_words, views, words,
};

verus! {

/// The byte that separates a record's key from its value.
pub const SPACE: u8 = 0x20;

/// The byte that ends a record.
pub const NEWLINE: u8 = 0x0a;

/// A key: non-empty, without whitespace.
pub open spec fn is_key(k: Seq<u8>) -> bool {
    k.len() > 0 && is_token(k)
}

/// The bytes that record `k` with value `v`.
pub open spec fn record_bytes(k: Seq<u8>, v: Seq<u8>) -> Seq<u8> {
    k + seq![SPACE] + v + seq![NEWLINE]
}

/// The key a line holds: its first word, if it has one.
pub open spec fn record_key(line: Seq<u8>) -> Option<Seq<u8>> {
    if words(line).len() > 0 {
        Some(words(line)[0])
    } else {
        None
    }
}

/// The value a line holds: its second word, or empty where there is none.
/// Any later words are ignored.
pub open spec fn record_value(line: Seq<u8>) -> Seq<u8> {
    if words(line).len() > 1 {
        words(line)[1]
    } else {
        Seq::empty()
    }
}

/// An encoded record decodes to the key and value it was made of.
pub proof fn lemma_decode_record(k: Seq<u8>, v: Seq<u8>)
    requires
        is_key(k),
        is_token(v),
    ensures
        record_key(record_bytes(k, v)) == Some(k),
        record_value(record_bytes(k, v)) == v,
        record_bytes(k, v).len() == k.len() + v.len() + 2,
        record_bytes(k, v).last() == NEWLINE,
{
    let rec = record_bytes(k, v);
    let kl = k.len() as int;
    let vs = kl + 1;
    let ve = vs + v.len();
    assert forall|m: int| 0 <= m < kl implies #[trigger] space_len(rec, m) == 0 by {
        assert(Seq::<u8>::empty() + k + (seq![SPACE] + v + seq![NEWLINE]) =~= rec);
        assert((seq![SPACE] + v + seq![NEWLINE])[0] == SPACE);
        assert(space_len(k, m) == 0);
        lemma_space_len_within(Seq::empty(), k, seq![SPACE] + v + seq![NEWLINE], m);
    }
    assert forall|m: int| vs <= m < ve implies #[trigger] space_len(rec, m) == 0 by {
        assert((k + seq![SPACE]) + v + seq![NEWLINE] =~= rec);
        assert(space_len(v, m - vs) == 0);
        lemma_space_len_within(k + seq![SPACE], v, seq![NEWLINE], m - vs);
    }
    assert(rec[kl] == SPACE);
    assert(rec[ve] == NEWLINE);
    lemma_scan_skip(rec, 0, 0, kl);
    lemma_scan_skip(rec, vs, vs, ve);
    assert(space_len(rec, kl) == 1);
    assert(space_len(rec, ve) == 1);
    assert(rec.subrange(0, kl) =~= k);
    assert(piece(rec, 0, kl) =~= seq![k]);
    assert(scan(rec, ve + 1, ve + 1) =~= Seq::<Seq<u8>>::empty());
    assert(scan(rec, 0, kl) == piece(rec, 0, kl) + scan(rec, vs, vs));
    assert(scan(rec, vs, ve) == piece(rec, vs, ve) + scan(rec, ve + 1, ve + 1));
    assert(words(rec) == seq![k] + (piece(rec, vs, ve) + scan(rec, ve + 1, ve + 1)));
    if v.len() > 0 {
        assert(rec.subrange(vs, ve) =~= v);
        assert(words(rec) =~= seq![k, v]);
    } else {
        assert(words(rec) =~= seq![k]);
    }
}

/// The record for `key` and `value`, or `Validation` where the key is empty
/// or either holds whitespace.
pub fn encode_record(key: &[u8], value: &[u8]) -> (r: Result<Vec<u8>, StoreError>)
    ensures
        match r {
            Ok(bytes) => is_key(key@) && is_token(value@) && bytes@ == record_bytes(key@, value@),
            Err(e) => !(is_key(key@) && is_token(value@)) && e == StoreError::Validation,
        },
{
    if key.len() == 0 || !is_token_bytes(key) || !is_token_bytes(value) {
        return Err(StoreError::Validation);
    }
    let mut out: Vec<u8> = Vec::new();
    let mut i: usize = 0;
    while i < key.len()
        invariant
            i <= key@.len(),
            out@ == key@.subrange(0, i as int),
        decreases key@.len() - i,
    {
        out.push(key[i]);
        i = i + 1;
        assert(out@ =~= key@.subrange(0, i as int));
    }
    out.push(SPACE);
    let mut j: usize = 0;
    while j < value.len()
        invariant
            j <= value@.len(),
            out@ == key@ + seq![SPACE] + value@.subrange(0, j as int),
        decreases value@.len() - j,
    {
        out.push(value[j]);
        j = j + 1;
        assert(out@ =~= key@ + seq![SPACE] + value@.subrange(0, j as int));
    }
    out.push(NEWLINE);
    assert(key@.subrange(0, key@.len() as int) =~= key@);
    assert(value@.subrange(0, value@.len() as int) =~= value@);
    assert(out@ =~= record_bytes(key@, value@));
    Ok(out)
}

/// The key and value that `s[lo..hi]` holds, or `None` where it holds no word.
pub fn decode_line(s: &[u8], lo: usize, hi: usize) -> (r: Option<(Vec<u8>, Vec<u8>)>)
    requires
        lo <= hi <= s@.len(),
    ensures
        match r {
            Some(kv) => record_key(s@.subrange(lo as int, hi as int)) == Some(kv.0@)
                && record_value(s@.subrange(lo as int, hi as int)) == kv.1@,
            None => record_key(s@.subrange(lo as int, hi as int)) is None,
        },
{
    let mut ws = split_words(s, lo, hi);
    let ghost all = views(ws@);
    if ws.len() == 0 {
        return None;
    }
    let value = if ws.len() > 1 {
        ws.swap_remove(1)
    } else {
        Vec::new()
    };
    let key = ws.swap_remove(0);
    proof {
        assert(all[0] == key@);
        if all.len() > 1 {
            assert(all[1] == value@);
        } else {
            assert(value@ =~= Seq::<u8>::empty());
        }
    }
    Some((key, value))
}

} // verus!
