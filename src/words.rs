//! Splitting byte strings into whitespace-separated words.
use vstd::prelude::*;
use vstd::utf8::{encode_scalar, encode_utf8};

verus! {

/// The one-byte whitespace characters: tab, line feed, vertical tab, form
/// feed, carriage return and space.
pub open spec fn is_ascii_space(b: u8) -> bool {
    b == 0x20u8 || (0x09u8 <= b && b <= 0x0du8)
}

/// Whether `a b c` is the UTF-8 encoding of a three-byte whitespace
/// character: U+1680, U+2000 to U+200A, U+2028, U+2029, U+202F, U+205F or
/// U+3000.
pub open spec fn is_space3(a: u8, b: u8, c: u8) -> bool {
    (a == 0xe1u8 && b == 0x9au8 && c == 0x80u8) || (a == 0xe2u8 && b == 0x80u8 && ((0x80u8 <= c
        && c <= 0x8au8) || c == 0xa8u8 || c == 0xa9u8 || c == 0xafu8)) || (a == 0xe2u8 && b
        == 0x81u8 && c == 0x9fu8) || (a == 0xe3u8 && b == 0x80u8 && c == 0x80u8)
}

/// The length of the whitespace character whose UTF-8 encoding begins at
/// byte `i` of `s`, or 0 where none does. Whitespace is Unicode's
/// White_Space: the one-byte characters above, U+0085 and U+00A0 (two
/// bytes), and the three-byte ones of `is_space3`. Their first bytes never
/// continue another character, so in UTF-8 text a match is always a whole
/// character.
pub open spec fn space_len(s: Seq<u8>, i: int) -> int {
    if !(0 <= i < s.len()) {
        0
    } else if is_ascii_space(s[i]) {
        1
    } else if i + 1 < s.len() && s[i] == 0xc2u8 && (s[i + 1] == 0x85u8 || s[i + 1] == 0xa0u8) {
        2
    } else if i + 2 < s.len() && is_space3(s[i], s[i + 1], s[i + 2]) {
        3
    } else {
        0
    }
}

/// The code points of Unicode's White_Space characters.
pub open spec fn is_space_scalar(v: u32) -> bool {
    (0x09 <= v <= 0x0d) || v == 0x20 || v == 0x85 || v == 0xa0 || v == 0x1680 || (0x2000 <= v
        <= 0x200a) || v == 0x2028 || v == 0x2029 || v == 0x202f || v == 0x205f || v == 0x3000
}

/// Unicode's White_Space characters.
pub open spec fn is_space_char(c: char) -> bool {
    is_space_scalar(c as u32)
}

/// The UTF-8 encodings of the whitespace code points, byte by byte.
proof fn lemma_encode_space_scalar(v: u32)
    requires
        is_space_scalar(v),
    ensures
        v <= 0x7f ==> encode_scalar(v) == seq![v as u8],
        0x80 <= v <= 0xbf ==> encode_scalar(v) == seq![0xc2u8, v as u8],
        v == 0x1680 ==> encode_scalar(v) == seq![0xe1u8, 0x9au8, 0x80u8],
        v == 0x3000 ==> encode_scalar(v) == seq![0xe3u8, 0x80u8, 0x80u8],
        0x2000 <= v <= 0x203f ==> encode_scalar(v) == seq![0xe2u8, 0x80u8, (v - 0x1f80u32) as u8],
        v == 0x205f ==> encode_scalar(v) == seq![0xe2u8, 0x81u8, 0x9fu8],
{
    if v <= 0x7f {
        assert((v & 0x7f) as u8 == v as u8) by (bit_vector)
            requires
                v <= 0x7f,
        ;
    } else if v <= 0xbf {
        assert(0xC0u8 | ((v >> 6u32) & 0x1Fu32) as u8 == 0xc2u8 && 0x80u8 | (v & 0x3Fu32) as u8
            == v as u8) by (bit_vector)
            requires
                0x80 <= v <= 0xbf,
        ;
    } else if v == 0x1680 {
        assert(0xE0u8 | ((v >> 12u32) & 0x0Fu32) as u8 == 0xe1u8 && 0x80u8 | ((v >> 6u32)
            & 0x3Fu32) as u8 == 0x9au8 && 0x80u8 | (v & 0x3Fu32) as u8 == 0x80u8) by (bit_vector)
            requires
                v == 0x1680,
        ;
    } else if v == 0x3000 {
        assert(0xE0u8 | ((v >> 12u32) & 0x0Fu32) as u8 == 0xe3u8 && 0x80u8 | ((v >> 6u32)
            & 0x3Fu32) as u8 == 0x80u8 && 0x80u8 | (v & 0x3Fu32) as u8 == 0x80u8) by (bit_vector)
            requires
                v == 0x3000,
        ;
    } else if v <= 0x203f {
        assert(0xE0u8 | ((v >> 12u32) & 0x0Fu32) as u8 == 0xe2u8 && 0x80u8 | ((v >> 6u32)
            & 0x3Fu32) as u8 == 0x80u8 && 0x80u8 | (v & 0x3Fu32) as u8 == (v - 0x1f80u32) as u8)
            by (bit_vector)
            requires
                0x2000 <= v <= 0x203f,
        ;
    } else {
        assert(0xE0u8 | ((v >> 12u32) & 0x0Fu32) as u8 == 0xe2u8 && 0x80u8 | ((v >> 6u32)
            & 0x3Fu32) as u8 == 0x81u8 && 0x80u8 | (v & 0x3Fu32) as u8 == 0x9fu8) by (bit_vector)
            requires
                v == 0x205f,
        ;
    }
}

/// The UTF-8 encoding of every whitespace character is matched, whole, by
/// `space_len`.
pub proof fn lemma_space_len_of_space_char(c: char)
    requires
        is_space_char(c),
    ensures
        space_len(encode_utf8(seq![c]), 0) == encode_utf8(seq![c]).len(),
{
    let v = c as u32;
    assert(seq![c][0] == c);
    assert(encode_utf8(Seq::<char>::empty()) =~= Seq::<u8>::empty());
    assert(encode_utf8(seq![c]) == encode_scalar(v) + encode_utf8(seq![c].drop_first()));
    assert(seq![c].drop_first() =~= Seq::<char>::empty());
    assert(encode_utf8(seq![c]) =~= encode_scalar(v));
    lemma_encode_space_scalar(v);
    if 0x2000 <= v <= 0x203f {
        assert((v - 0x1f80u32) as u8 == v - 0x1f80);
    }
}

/// Whatever `space_len` matches is the UTF-8 encoding of a whitespace
/// character.
pub proof fn lemma_space_len_is_space_char(s: Seq<u8>, i: int)
    requires
        space_len(s, i) > 0,
    ensures
        exists|v: u32|
            is_space_scalar(v) && #[trigger] encode_scalar(v) == s.subrange(i, i + space_len(s, i)),
{
    let n = space_len(s, i);
    let v: u32 = if n == 1 {
        s[i] as u32
    } else if n == 2 {
        s[i + 1] as u32
    } else if s[i] == 0xe1u8 {
        0x1680
    } else if s[i] == 0xe3u8 {
        0x3000
    } else if s[i + 1] == 0x81u8 {
        0x205f
    } else {
        (s[i + 2] + 0x1f80) as u32
    };
    assert(is_space_scalar(v));
    lemma_encode_space_scalar(v);
    if n == 3 && s[i] == 0xe2u8 && s[i + 1] == 0x80u8 {
        assert((v - 0x1f80u32) as u8 == s[i + 2]);
    }
    assert(encode_scalar(v) =~= s.subrange(i, i + n));
}

/// A byte string in which no whitespace character begins.
pub open spec fn is_token(s: Seq<u8>) -> bool {
    forall|i: int| 0 <= i < s.len() ==> #[trigger] space_len(s, i) == 0
}

/// `s[start..i]` as a word, where it is not empty.
pub open spec fn piece(s: Seq<u8>, start: int, i: int) -> Seq<Seq<u8>> {
    if start < i {
        seq![s.subrange(start, i)]
    } else {
        seq![]
    }
}

/// The words of `s` from byte `i` on, where the word in progress began at
/// `start`.
pub open spec fn scan(s: Seq<u8>, start: int, i: int) -> Seq<Seq<u8>>
    decreases s.len() - i,
{
    if i < 0 || i >= s.len() {
        piece(s, start, i)
    } else if space_len(s, i) > 0 {
        piece(s, start, i) + scan(s, i + space_len(s, i), i + space_len(s, i))
    } else {
        scan(s, start, i + 1)
    }
}

/// The maximal runs of `s` that hold no whitespace character, in order.
pub open spec fn words(s: Seq<u8>) -> Seq<Seq<u8>> {
    scan(s, 0, 0)
}

/// The byte strings held by a vector of buffers.
pub open spec fn views(v: Seq<Vec<u8>>) -> Seq<Seq<u8>> {
    Seq::new(v.len(), |i: int| v[i]@)
}

/// Whitespace at byte `p.len() + r` of `p + a + b` is whitespace at byte `r`
/// of `a`, where `b` begins with a one-byte character: no multi-byte
/// whitespace runs from `a` into it.
pub proof fn lemma_space_len_within(p: Seq<u8>, a: Seq<u8>, b: Seq<u8>, r: int)
    requires
        0 <= r < a.len(),
        b.len() > 0 ==> b[0] < 0x80u8,
    ensures
        space_len(p + a + b, p.len() + r) == space_len(a, r),
{
    let s = p + a + b;
    let i = p.len() + r;
    assert(s[i] == a[r]);
    if r + 1 < a.len() {
        assert(s[i + 1] == a[r + 1]);
    } else if b.len() > 0 {
        assert(s[i + 1] == b[0]);
    }
    if r + 2 < a.len() {
        assert(s[i + 2] == a[r + 2]);
    } else if r + 2 == a.len() && b.len() > 0 {
        assert(s[i + 1] == a[r + 1]);
        assert(s[i + 2] == b[0]);
    }
}

/// Bytes without whitespace do not end the word in progress.
pub proof fn lemma_scan_skip(s: Seq<u8>, start: int, i: int, j: int)
    requires
        0 <= i <= j <= s.len(),
        forall|m: int| i <= m < j ==> #[trigger] space_len(s, m) == 0,
    ensures
        scan(s, start, i) == scan(s, start, j),
    decreases j - i,
{
    if i < j {
        lemma_scan_skip(s, start, i + 1, j);
    }
}

/// A one-byte whitespace character at the end adds no word.
pub proof fn lemma_scan_push_space(s: Seq<u8>, c: u8, start: int, i: int)
    requires
        is_ascii_space(c),
        0 <= start <= i <= s.len(),
    ensures
        scan(s.push(c), start, i) == scan(s, start, i),
    decreases s.len() - i,
{
    let t = s.push(c);
    if i < s.len() {
        assert(s + seq![c] =~= t);
        assert(Seq::<u8>::empty() + s + seq![c] =~= t);
        assert(Seq::<u8>::empty() + s =~= s);
        lemma_space_len_within(Seq::empty(), s, seq![c], i);
        let n = space_len(s, i);
        if n > 0 {
            assert(t.subrange(start, i) =~= s.subrange(start, i));
            assert(piece(t, start, i) =~= piece(s, start, i));
            lemma_scan_push_space(s, c, i + n, i + n);
        } else {
            lemma_scan_push_space(s, c, start, i + 1);
        }
    } else {
        assert(space_len(t, i) == 1);
        assert(t.subrange(start, i) =~= s.subrange(start, i));
        assert(piece(t, start, i) =~= piece(s, start, i));
        assert(scan(t, i + 1, i + 1) =~= Seq::<Seq<u8>>::empty());
        assert(piece(t, start, i) + scan(t, i + 1, i + 1) =~= piece(s, start, i));
    }
}

/// A one-byte whitespace character at the end adds no word.
pub proof fn lemma_words_push_space(s: Seq<u8>, c: u8)
    requires
        is_ascii_space(c),
    ensures
        words(s.push(c)) == words(s),
{
    lemma_scan_push_space(s, c, 0, 0);
}

/// The length of the whitespace character that begins at byte `i` of
/// `s[lo..hi]`, or 0.
pub fn space_len_in(s: &[u8], lo: usize, hi: usize, i: usize) -> (r: usize)
    requires
        lo <= i < hi <= s@.len(),
    ensures
        r == space_len(s@.subrange(lo as int, hi as int), i - lo),
{
    let b = s[i];
    if b == 0x20u8 || (0x09u8 <= b && b <= 0x0du8) {
        1
    } else if i + 1 < hi && b == 0xc2u8 && (s[i + 1] == 0x85u8 || s[i + 1] == 0xa0u8) {
        2
    } else if hi - i > 2 && ((b == 0xe1u8 && s[i + 1] == 0x9au8 && s[i + 2] == 0x80u8) || (b
        == 0xe2u8 && s[i + 1] == 0x80u8 && ((0x80u8 <= s[i + 2] && s[i + 2] <= 0x8au8) || s[i
        + 2] == 0xa8u8 || s[i + 2] == 0xa9u8 || s[i + 2] == 0xafu8)) || (b == 0xe2u8 && s[i
        + 1] == 0x81u8 && s[i + 2] == 0x9fu8) || (b == 0xe3u8 && s[i + 1] == 0x80u8 && s[i + 2]
        == 0x80u8)) {
        3
    } else {
        0
    }
}

/// A copy of `s[a..b]`.
fn copy_range(s: &[u8], a: usize, b: usize) -> (r: Vec<u8>)
    requires
        a <= b <= s@.len(),
    ensures
        r@ == s@.subrange(a as int, b as int),
{
    let mut out: Vec<u8> = Vec::new();
    let mut i: usize = a;
    while i < b
        invariant
            a <= i <= b <= s@.len(),
            out@ == s@.subrange(a as int, i as int),
        decreases b - i,
    {
        out.push(s[i]);
        i = i + 1;
        assert(out@ =~= s@.subrange(a as int, i as int));
    }
    out
}

/// The words of `s[lo..hi]`, each copied out.
pub fn split_words(s: &[u8], lo: usize, hi: usize) -> (r: Vec<Vec<u8>>)
    requires
        lo <= hi <= s@.len(),
    ensures
        views(r@) == words(s@.subrange(lo as int, hi as int)),
{
    let ghost t = s@.subrange(lo as int, hi as int);
    let mut out: Vec<Vec<u8>> = Vec::new();
    let mut start: usize = lo;
    let mut i: usize = lo;
    assert(views(out@) + words(t) =~= words(t));
    while i < hi
        invariant
            lo <= start <= i <= hi <= s@.len(),
            t == s@.subrange(lo as int, hi as int),
            views(out@) + scan(t, start - lo, i - lo) == words(t),
        decreases hi - i,
    {
        let n = space_len_in(s, lo, hi, i);
        if n > 0 {
            let ghost before = views(out@);
            if start < i {
                let w = copy_range(s, start, i);
                assert(w@ =~= t.subrange(start - lo, i - lo));
                out.push(w);
                assert(views(out@) =~= before + piece(t, start - lo, i - lo));
            } else {
                assert(views(out@) =~= before + piece(t, start - lo, i - lo));
            }
            i = i + n;
            start = i;
        } else {
            i = i + 1;
        }
    }
    let ghost before = views(out@);
    if start < i {
        let w = copy_range(s, start, i);
        assert(w@ =~= t.subrange(start - lo, i - lo));
        out.push(w);
        assert(views(out@) =~= before + piece(t, start - lo, i - lo));
    } else {
        assert(views(out@) =~= before + piece(t, start - lo, i - lo));
    }
    out
}

/// Whether no whitespace character begins in `s`.
pub fn is_token_bytes(s: &[u8]) -> (r: bool)
    ensures
        r == is_token(s@),
{
    let n = s.len();
    let ghost t = s@.subrange(0, n as int);
    assert(t =~= s@);
    let mut i: usize = 0;
    while i < n
        invariant
            n == s@.len(),
            t == s@,
            i <= n,
            forall|j: int| 0 <= j < i ==> #[trigger] space_len(s@, j) == 0,
        decreases n - i,
    {
        if space_len_in(s, 0, n, i) > 0 {
            assert(space_len(s@, i as int) > 0);
            return false;
        }
        i = i + 1;
    }
    true
}

/// Whether `a` and `b` hold the same bytes.
pub fn bytes_eq(a: &[u8], b: &[u8]) -> (r: bool)
    ensures
        r == (a@ == b@),
{
    if a.len() != b.len() {
        return false;
    }
    let mut i: usize = 0;
    while i < a.len()
        invariant
            i <= a@.len() == b@.len(),
            forall|j: int| 0 <= j < i ==> a@[j] == b@[j],
        decreases a@.len() - i,
    {
        if a[i] != b[i] {
            return false;
        }
        i = i + 1;
    }
    assert(a@ =~= b@);
    true
}

} // verus!
