//! Byte-level text helpers over UTF-8 input: whitespace trimming, searching and
//! decimal number parsing, as `str` does them.
use vstd::prelude::*;

verus! {

/// Whether `b` is an ASCII decimal digit.
pub open spec fn is_digit(b: u8) -> bool {
    48 <= b <= 57
}

/// ASCII whitespace as `u8::is_ascii_whitespace` defines it (space, tab, line feed,
/// form feed, carriage return).
pub open spec fn is_ascii_ws(b: u8) -> bool {
    b == 32 || b == 9 || b == 10 || b == 12 || b == 13
}

/// `b` with ASCII upper-case letters mapped to lower case.
pub open spec fn ascii_lower(b: u8) -> u8 {
    if 65 <= b <= 90 {
        (b + 32) as u8
    } else {
        b
    }
}

/// The one-byte characters with the Unicode White_Space property.
pub open spec fn is_ws1(b: u8) -> bool {
    9 <= b <= 13 || b == 32
}

/// The two-byte UTF-8 encodings of White_Space characters (U+0085, U+00A0).
pub open spec fn is_ws2(a: u8, b: u8) -> bool {
    a == 0xC2 && (b == 0x85 || b == 0xA0)
}

/// The three-byte UTF-8 encodings of White_Space characters (U+1680, U+2000..=U+200A,
/// U+2028, U+2029, U+202F, U+205F, U+3000).
pub open spec fn is_ws3(a: u8, b: u8, c: u8) -> bool {
    ||| a == 0xE1 && b == 0x9A && c == 0x80
    ||| a == 0xE2 && b == 0x80 && (0x80 <= c <= 0x8A || c == 0xA8 || c == 0xA9 || c == 0xAF)
    ||| a == 0xE2 && b == 0x81 && c == 0x9F
    ||| a == 0xE3 && b == 0x80 && c == 0x80
}

/// Byte length of the White_Space character that `s` starts with, or 0.
pub open spec fn ws_prefix_len(s: Seq<u8>) -> int {
    if s.len() >= 1 && is_ws1(s[0]) {
        1
    } else if s.len() >= 2 && is_ws2(s[0], s[1]) {
        2
    } else if s.len() >= 3 && is_ws3(s[0], s[1], s[2]) {
        3
    } else {
        0
    }
}

/// Byte length of the White_Space character that `s` ends with, or 0.
pub open spec fn ws_suffix_len(s: Seq<u8>) -> int {
    let n = s.len() as int;
    if n >= 1 && is_ws1(s[n - 1]) {
        1
    } else if n >= 2 && is_ws2(s[n - 2], s[n - 1]) {
        2
    } else if n >= 3 && is_ws3(s[n - 3], s[n - 2], s[n - 1]) {
        3
    } else {
        0
    }
}

/// `s` without its leading White_Space characters.
pub open spec fn trim_start(s: Seq<u8>) -> Seq<u8>
    decreases s.len(),
{
    if ws_prefix_len(s) > 0 {
        trim_start(s.subrange(ws_prefix_len(s), s.len() as int))
    } else {
        s
    }
}

/// `s` without its trailing White_Space characters.
pub open spec fn trim_end(s: Seq<u8>) -> Seq<u8>
    decreases s.len(),
{
    if ws_suffix_len(s) > 0 {
        trim_end(s.subrange(0, s.len() - ws_suffix_len(s)))
    } else {
        s
    }
}

/// `s` without leading and trailing White_Space characters (`str::trim`).
pub open spec fn trim(s: Seq<u8>) -> Seq<u8> {
    trim_end(trim_start(s))
}

/// Whether slicing a `str` with bytes `s` at byte `i` is allowed (`str::is_char_boundary`).
pub open spec fn char_boundary(s: Seq<u8>, i: int) -> bool {
    i == 0 || i == s.len() || (0 < i < s.len() && (s[i] < 0x80 || s[i] >= 0xC0))
}

/// Kinds of bytes searched for.
#[derive(Clone, Copy)]
pub enum ByteClass {
    NonDigit,
    Colon,
    Sign,
}

/// Whether `b` belongs to class `c`.
pub open spec fn in_class(c: ByteClass, b: u8) -> bool {
    match c {
        ByteClass::NonDigit => !is_digit(b),
        ByteClass::Colon => b == 58,
        ByteClass::Sign => b == 43 || b == 45,
    }
}

/// Index of the first byte of `s` in class `c`, or `s.len()` if there is none.
pub open spec fn first_in(s: Seq<u8>, c: ByteClass) -> int
    decreases s.len(),
{
    if s.len() == 0 {
        0
    } else if in_class(c, s[0]) {
        0
    } else {
        1 + first_in(s.subrange(1, s.len() as int), c)
    }
}

/// Whether every byte of `s` is a decimal digit.
pub open spec fn all_digits(s: Seq<u8>) -> bool {
    forall|k: int| 0 <= k < s.len() ==> is_digit(#[trigger] s[k])
}

/// The value of the decimal digits `s`.
pub open spec fn digits_value(s: Seq<u8>) -> nat
    decreases s.len(),
{
    if s.len() == 0 {
        0
    } else {
        digits_value(s.drop_last()) * 10 + (s.last() - 48) as nat
    }
}

/// The value of a non-empty string of decimal digits, if it fits in a `u64`.
pub open spec fn spec_parse_u64(s: Seq<u8>) -> Option<u64> {
    if s.len() > 0 && all_digits(s) && digits_value(s) <= u64::MAX {
        Some(digits_value(s) as u64)
    } else {
        None
    }
}

pub proof fn lemma_first_in(s: Seq<u8>, c: ByteClass, k: int)
    requires
        0 <= k <= s.len(),
        forall|j: int| 0 <= j < k ==> !in_class(c, #[trigger] s[j]),
        k == s.len() || in_class(c, s[k]),
    ensures
        first_in(s, c) == k,
    decreases k,
{
    if k > 0 {
        let t = s.subrange(1, s.len() as int);
        assert forall|j: int| 0 <= j < k - 1 implies !in_class(c, #[trigger] t[j]) by {
            assert(t[j] == s[j + 1]);
        }
        if k < s.len() {
            assert(t[k - 1] == s[k]);
        }
        lemma_first_in(t, c, k - 1);
    }
}

pub proof fn lemma_first_in_bounds(s: Seq<u8>, c: ByteClass)
    ensures
        0 <= first_in(s, c) <= s.len(),
        forall|j: int| 0 <= j < first_in(s, c) ==> !in_class(c, #[trigger] s[j]),
        first_in(s, c) < s.len() ==> in_class(c, s[first_in(s, c)]),
    decreases s.len(),
{
    if s.len() > 0 && !in_class(c, s[0]) {
        let t = s.subrange(1, s.len() as int);
        lemma_first_in_bounds(t, c);
        assert forall|j: int| 0 <= j < first_in(s, c) implies !in_class(c, #[trigger] s[j]) by {
            if j > 0 {
                assert(s[j] == t[j - 1]);
            }
        }
    }
}

/// Trimming never lengthens a text, and shortens it wherever it has whitespace to remove.
pub proof fn lemma_trim_len(s: Seq<u8>)
    ensures
        trim_start(s).len() <= s.len(),
        trim_end(s).len() <= s.len(),
        ws_prefix_len(s) > 0 ==> trim_start(s).len() < s.len(),
        ws_suffix_len(s) > 0 ==> trim_end(s).len() < s.len(),
    decreases s.len(),
{
    let p = ws_prefix_len(s);
    if p > 0 {
        lemma_trim_len(s.subrange(p, s.len() as int));
    }
    let q = ws_suffix_len(s);
    if q > 0 {
        lemma_trim_len(s.subrange(0, s.len() - q));
    }
}

/// A text that trimming leaves as it is has no whitespace at either end.
pub proof fn lemma_trimmed_ends(s: Seq<u8>)
    requires
        trim(s) == s,
    ensures
        ws_prefix_len(s) == 0,
        ws_suffix_len(s) == 0,
{
    lemma_trim_len(s);
    lemma_trim_len(trim_start(s));
    if ws_prefix_len(s) == 0 {
        assert(trim_start(s) == s);
    }
}

/// Whether every byte of `s` is ASCII whitespace.
pub open spec fn all_ascii_ws(s: Seq<u8>) -> bool {
    forall|k: int| 0 <= k < s.len() ==> is_ascii_ws(#[trigger] s[k])
}

/// ASCII whitespace is trimmed away entirely from either end.
pub proof fn lemma_ascii_ws_trims(s: Seq<u8>)
    requires
        all_ascii_ws(s),
    ensures
        trim_start(s).len() == 0,
        trim_end(s).len() == 0,
    decreases s.len(),
{
    if s.len() > 0 {
        let n = s.len() as int;
        assert(is_ascii_ws(s[0]) && is_ascii_ws(s[n - 1]));
        let r = s.subrange(1, n);
        let l = s.subrange(0, n - 1);
        assert forall|k: int| 0 <= k < r.len() implies is_ascii_ws(#[trigger] r[k]) by {
            assert(r[k] == s[k + 1]);
        }
        assert forall|k: int| 0 <= k < l.len() implies is_ascii_ws(#[trigger] l[k]) by {
            assert(l[k] == s[k]);
        }
        lemma_ascii_ws_trims(r);
        lemma_ascii_ws_trims(l);
    }
}

/// Trimming the front of whitespace `w` followed by `x`, which starts with no whitespace,
/// leaves `x`.
pub proof fn lemma_trim_start_pad(w: Seq<u8>, x: Seq<u8>)
    requires
        trim_start(w).len() == 0,
        ws_prefix_len(x) == 0,
    ensures
        trim_start(w + x) == x,
    decreases w.len(),
{
    let wx = w + x;
    if w.len() == 0 {
        assert(wx =~= x);
    } else {
        let k = ws_prefix_len(w);
        assert(k > 0);
        assert(wx[0] == w[0]);
        if w.len() >= 2 {
            assert(wx[1] == w[1]);
        }
        if w.len() >= 3 {
            assert(wx[2] == w[2]);
        }
        assert(ws_prefix_len(wx) == k);
        assert(wx.subrange(k, wx.len() as int) =~= w.subrange(k, w.len() as int) + x);
        lemma_trim_start_pad(w.subrange(k, w.len() as int), x);
    }
}

/// Trimming the end of `y`, which ends with no whitespace, followed by whitespace `w`,
/// leaves `y`.
pub proof fn lemma_trim_end_pad(y: Seq<u8>, w: Seq<u8>)
    requires
        trim_end(w).len() == 0,
        ws_suffix_len(y) == 0,
    ensures
        trim_end(y + w) == y,
    decreases w.len(),
{
    let yw = y + w;
    let n = yw.len() as int;
    let m = w.len() as int;
    if m == 0 {
        assert(yw =~= y);
    } else {
        let k = ws_suffix_len(w);
        assert(k > 0);
        assert(yw[n - 1] == w[m - 1]);
        if m >= 2 {
            assert(yw[n - 2] == w[m - 2]);
        }
        if m >= 3 {
            assert(yw[n - 3] == w[m - 3]);
        }
        assert(ws_suffix_len(yw) == k);
        assert(yw.subrange(0, n - k) =~= y + w.subrange(0, m - k));
        lemma_trim_end_pad(y, w.subrange(0, m - k));
    }
}

/// `s` with ASCII upper-case letters mapped to lower case (`to_ascii_lowercase`).
pub open spec fn lower_bytes(s: Seq<u8>) -> Seq<u8> {
    s.map_values(|b: u8| ascii_lower(b))
}

/// Lower-casing commutes with taking a part.
pub proof fn lemma_lower_subrange(s: Seq<u8>, i: int, j: int)
    requires
        0 <= i <= j <= s.len(),
    ensures
        lower_bytes(s).subrange(i, j) == lower_bytes(s.subrange(i, j)),
{
    assert(lower_bytes(s).subrange(i, j) =~= lower_bytes(s.subrange(i, j)));
}

/// Lower-casing changes no whitespace at either end.
proof fn lemma_lower_ws(s: Seq<u8>)
    ensures
        ws_prefix_len(lower_bytes(s)) == ws_prefix_len(s),
        ws_suffix_len(lower_bytes(s)) == ws_suffix_len(s),
{
    let l = lower_bytes(s);
    let n = s.len() as int;
    if n >= 1 {
        assert(l[0] == ascii_lower(s[0]) && l[n - 1] == ascii_lower(s[n - 1]));
    }
    if n >= 2 {
        assert(l[1] == ascii_lower(s[1]) && l[n - 2] == ascii_lower(s[n - 2]));
    }
    if n >= 3 {
        assert(l[2] == ascii_lower(s[2]) && l[n - 3] == ascii_lower(s[n - 3]));
    }
}

proof fn lemma_lower_trim_start(s: Seq<u8>)
    ensures
        trim_start(lower_bytes(s)) == lower_bytes(trim_start(s)),
    decreases s.len(),
{
    lemma_lower_ws(s);
    let k = ws_prefix_len(s);
    if k > 0 {
        lemma_lower_subrange(s, k, s.len() as int);
        lemma_lower_trim_start(s.subrange(k, s.len() as int));
    }
}

proof fn lemma_lower_trim_end(s: Seq<u8>)
    ensures
        trim_end(lower_bytes(s)) == lower_bytes(trim_end(s)),
    decreases s.len(),
{
    lemma_lower_ws(s);
    let k = ws_suffix_len(s);
    if k > 0 {
        lemma_lower_subrange(s, 0, s.len() - k);
        lemma_lower_trim_end(s.subrange(0, s.len() - k));
    }
}

/// Lower-casing commutes with trimming.
pub proof fn lemma_lower_trim(s: Seq<u8>)
    ensures
        trim(lower_bytes(s)) == lower_bytes(trim(s)),
{
    lemma_lower_trim_start(s);
    lemma_lower_trim_end(trim_start(s));
}

/// Lower-casing moves no digit and no separator.
pub proof fn lemma_lower_first_in(s: Seq<u8>, c: ByteClass)
    ensures
        first_in(lower_bytes(s), c) == first_in(s, c),
    decreases s.len(),
{
    if s.len() > 0 {
        assert(lower_bytes(s)[0] == ascii_lower(s[0]));
        lemma_lower_subrange(s, 1, s.len() as int);
        lemma_lower_first_in(s.subrange(1, s.len() as int), c);
    }
}

/// Lower-casing leaves numbers as they are.
pub proof fn lemma_lower_parse_u64(s: Seq<u8>)
    ensures
        spec_parse_u64(lower_bytes(s)) == spec_parse_u64(s),
{
    let l = lower_bytes(s);
    if all_digits(s) {
        assert(l =~= s);
    } else {
        let k = choose|k: int| 0 <= k < s.len() && !is_digit(#[trigger] s[k]);
        assert(l[k] == ascii_lower(s[k]));
    }
}

/// Index (relative to `lo`) of the first byte of `b[lo..hi]` in class `c`, or `hi - lo`.
pub fn find_class(b: &[u8], lo: usize, hi: usize, c: ByteClass) -> (res: usize)
    requires
        lo <= hi <= b@.len(),
    ensures
        res == first_in(b@.subrange(lo as int, hi as int), c),
        res <= hi - lo,
{
    let mut i = lo;
    while i < hi && !class_hit(c, b[i])
        invariant
            lo <= i <= hi <= b@.len(),
            forall|j: int| lo <= j < i ==> !in_class(c, #[trigger] b@[j]),
        decreases hi - i,
    {
        i += 1;
    }
    proof {
        let s = b@.subrange(lo as int, hi as int);
        assert forall|j: int| 0 <= j < i - lo implies !in_class(c, #[trigger] s[j]) by {
            assert(s[j] == b@[lo + j]);
        }
        lemma_first_in(s, c, i - lo);
    }
    i - lo
}

fn class_hit(c: ByteClass, x: u8) -> (res: bool)
    ensures
        res == in_class(c, x),
{
    match c {
        ByteClass::NonDigit => !(48 <= x && x <= 57),
        ByteClass::Colon => x == 58,
        ByteClass::Sign => x == 43 || x == 45,
    }
}

/// Byte length of the White_Space character at the start of `b[lo..hi]`, or 0.
fn ws_prefix_at(b: &[u8], lo: usize, hi: usize) -> (res: usize)
    requires
        lo <= hi <= b@.len(),
    ensures
        res == ws_prefix_len(b@.subrange(lo as int, hi as int)),
{
    let n = hi - lo;
    if n >= 1 && 9 <= b[lo] && b[lo] <= 13 || n >= 1 && b[lo] == 32 {
        1
    } else if n >= 2 && b[lo] == 0xC2 && (b[lo + 1] == 0x85 || b[lo + 1] == 0xA0) {
        2
    } else if n >= 3 && is_ws3_exec(b[lo], b[lo + 1], b[lo + 2]) {
        3
    } else {
        0
    }
}

/// Byte length of the White_Space character at the end of `b[lo..hi]`, or 0.
fn ws_suffix_at(b: &[u8], lo: usize, hi: usize) -> (res: usize)
    requires
        lo <= hi <= b@.len(),
    ensures
        res == ws_suffix_len(b@.subrange(lo as int, hi as int)),
{
    let n = hi - lo;
    if n >= 1 && (9 <= b[hi - 1] && b[hi - 1] <= 13 || b[hi - 1] == 32) {
        1
    } else if n >= 2 && b[hi - 2] == 0xC2 && (b[hi - 1] == 0x85 || b[hi - 1] == 0xA0) {
        2
    } else if n >= 3 && is_ws3_exec(b[hi - 3], b[hi - 2], b[hi - 1]) {
        3
    } else {
        0
    }
}

fn is_ws3_exec(a: u8, b: u8, c: u8) -> (res: bool)
    ensures
        res == is_ws3(a, b, c),
{
    (a == 0xE1 && b == 0x9A && c == 0x80) || (a == 0xE2 && b == 0x80 && ((0x80 <= c && c
        <= 0x8A) || c == 0xA8 || c == 0xA9 || c == 0xAF)) || (a == 0xE2 && b == 0x81 && c
        == 0x9F) || (a == 0xE3 && b == 0x80 && c == 0x80)
}

/// Bounds of `b[lo..hi]` with White_Space trimmed from both ends.
pub fn trim_bounds(b: &[u8], lo: usize, hi: usize) -> (res: (usize, usize))
    requires
        lo <= hi <= b@.len(),
    ensures
        lo <= res.0 <= res.1 <= hi,
        b@.subrange(res.0 as int, res.1 as int) == trim(b@.subrange(lo as int, hi as int)),
{
    let mut start = lo;
    while start < hi && ws_prefix_at(b, start, hi) > 0
        invariant
            lo <= start <= hi <= b@.len(),
            trim_start(b@.subrange(lo as int, hi as int)) == trim_start(
                b@.subrange(start as int, hi as int),
            ),
        decreases hi - start,
    {
        let n = ws_prefix_at(b, start, hi);
        proof {
            let s = b@.subrange(start as int, hi as int);
            assert(s.subrange(n as int, s.len() as int) =~= b@.subrange(start + n, hi as int));
        }
        start += n;
    }
    proof {
        let s = b@.subrange(start as int, hi as int);
        if start == hi {
            assert(ws_prefix_len(s) == 0);
        }
    }
    let ghost mid = b@.subrange(start as int, hi as int);
    assert(trim_start(b@.subrange(lo as int, hi as int)) == mid);
    let mut end = hi;
    while end > start && ws_suffix_at(b, start, end) > 0
        invariant
            lo <= start <= end <= hi <= b@.len(),
            mid == b@.subrange(start as int, hi as int),
            trim_end(mid) == trim_end(b@.subrange(start as int, end as int)),
        decreases end - start,
    {
        let n = ws_suffix_at(b, start, end);
        proof {
            let s = b@.subrange(start as int, end as int);
            assert(s.subrange(0, s.len() - n) =~= b@.subrange(start as int, end - n));
        }
        end -= n;
    }
    proof {
        let s = b@.subrange(start as int, end as int);
        if start == end {
            assert(ws_suffix_len(s) == 0);
        }
    }
    (start, end)
}

proof fn lemma_digits_value_prefix_mono(s: Seq<u8>, j: int)
    requires
        0 <= j <= s.len(),
    ensures
        digits_value(s.subrange(0, j)) <= digits_value(s),
    decreases s.len() - j,
{
    if j < s.len() {
        lemma_digits_value_prefix_mono(s, j + 1);
        assert(s.subrange(0, j + 1).drop_last() =~= s.subrange(0, j));
    } else {
        assert(s.subrange(0, j) =~= s);
    }
}

/// The value of the decimal digits `b[lo..hi]`, if there is at least one, they are all
/// digits and the value fits in a `u64`.
pub fn parse_u64_at(b: &[u8], lo: usize, hi: usize) -> (res: Option<u64>)
    requires
        lo <= hi <= b@.len(),
    ensures
        res == spec_parse_u64(b@.subrange(lo as int, hi as int)),
{
    let ghost s = b@.subrange(lo as int, hi as int);
    if lo == hi {
        return None;
    }
    let mut res: u64 = 0;
    let mut i = lo;
    while i < hi
        invariant
            lo <= i <= hi <= b@.len(),
            s == b@.subrange(lo as int, hi as int),
            all_digits(s.subrange(0, i - lo)),
            res == digits_value(s.subrange(0, i - lo)),
        decreases hi - i,
    {
        let c = b[i];
        let ghost t = s.subrange(0, i - lo + 1);
        proof {
            assert(t.drop_last() =~= s.subrange(0, i - lo));
            assert(t.last() == c);
        }
        if !(48 <= c && c <= 57) {
            assert(!all_digits(s)) by {
                assert(s[i - lo] == c);
            }
            return None;
        }
        let next = match res.checked_mul(10) {
            Some(v) => v.checked_add((c - 48) as u64),
            None => None,
        };
        match next {
            Some(v) => {
                res = v;
            },
            None => {
                proof {
                    lemma_digits_value_prefix_mono(s, i - lo + 1);
                }
                return None;
            },
        }
        i += 1;
        proof {
            assert forall|k: int| 0 <= k < t.len() implies is_digit(#[trigger] t[k]) by {
                if k < i - lo - 1 {
                    assert(t[k] == s.subrange(0, i - lo - 1)[k]);
                }
            }
        }
    }
    assert(s.subrange(0, i - lo) =~= s);
    Some(res)
}

} // verus!
