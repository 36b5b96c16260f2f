//! Parsing of sleep durations ("1h30m") and of deadlines ("tomorrow 8am", "@1700000000").
use vstd::prelude::*;
use vstd::string::*;
use crate::datetime::{
    from_unix_timestamp, lemma_day_number_of_timestamp, spec_day_number, lemma_unix_timestamp_range, month_len, spec_from_unix_timestamp,
    spec_to_unix_timestamp, to_unix_timestamp, DateTime, Day, Hour24, Minute, Month, Second, Year,
};
use crate::duration::{
    decimal_bytes, digit_byte, human_bytes, human_part, pow10, Days, Hours, Minutes, Seconds,
};
use crate::text::{
    lemma_trimmed_ends, in_class, all_ascii_ws, lemma_ascii_ws_trims, lemma_trim_start_pad,
    lemma_trim_end_pad, lemma_lower_first_in, lemma_lower_parse_u64, lemma_lower_subrange, lemma_lower_trim,
    lower_bytes, all_digits, ascii_lower, digits_value, find_class, first_in, is_ascii_ws, is_digit,
    lemma_first_in, lemma_first_in_bounds, parse_u64_at, spec_parse_u64, trim, trim_bounds,
    trim_end, trim_start, ws_prefix_len, ws_suffix_len, char_boundary, ByteClass,
};

verus! {

/// Why a duration could not be parsed.
#[derive(Debug, Clone, Copy, PartialEq, Eq, Structural)]
pub enum ParseDurationError {
    InvalidInput,
    EmptyInput,
    InvalidNumber,
    InvalidUnit,
    Overflow,
}

/// The message of each duration error.
pub open spec fn duration_error_message(e: ParseDurationError) -> Seq<char> {
    match e {
        ParseDurationError::InvalidInput => "Invalid input"@,
        ParseDurationError::EmptyInput => "Empty input"@,
        ParseDurationError::InvalidNumber => "Invalid number"@,
        ParseDurationError::InvalidUnit => "Invalid unit"@,
        ParseDurationError::Overflow => "Duration overflow"@,
    }
}

impl ParseDurationError {
    /// A short description of the error.
    pub fn as_str(&self) -> (res: &'static str)
        ensures
            res@ == duration_error_message(*self),
    {
        match self {
            Self::InvalidInput => "Invalid input",
            Self::EmptyInput => "Empty input",
            Self::InvalidNumber => "Invalid number",
            Self::InvalidUnit => "Invalid unit",
            Self::Overflow => "Duration overflow",
        }
    }
}

/// Why a deadline could not be parsed.
#[derive(Debug, Clone, Copy, PartialEq, Eq, Structural)]
pub enum ParseDateTimeError {
    InvalidFormat,
    InvalidValue,
    PastTime,
}

/// The message of each deadline error.
pub open spec fn datetime_error_message(e: ParseDateTimeError) -> Seq<char> {
    match e {
        ParseDateTimeError::InvalidFormat => "Invalid datetime format"@,
        ParseDateTimeError::InvalidValue => "Invalid date/time value"@,
        ParseDateTimeError::PastTime => "Specified time is in the past"@,
    }
}

impl ParseDateTimeError {
    /// A short description of the error.
    pub fn as_str(&self) -> (res: &'static str)
        ensures
            res@ == datetime_error_message(*self),
    {
        match self {
            Self::InvalidFormat => "Invalid datetime format",
            Self::InvalidValue => "Invalid date/time value",
            Self::PastTime => "Specified time is in the past",
        }
    }
}

/// Seconds per unit letter (already lower-cased): s, m, h, d.
pub open spec fn unit_seconds(u: u8) -> Option<u64> {
    if u == 115 {
        Some(1)
    } else if u == 109 {
        Some(60)
    } else if u == 104 {
        Some(3600)
    } else if u == 100 {
        Some(86400)
    } else {
        None
    }
}

/// Reads the duration components of `t` from left to right, adding them to `total`.
/// A component is a run of digits followed by an optional unit letter (s, m, h, d in
/// either case; no letter means seconds); ASCII whitespace between components is skipped.
pub open spec fn scan_duration(t: Seq<u8>, total: nat) -> Result<Seconds, ParseDurationError>
    decreases t.len(),
{
    if t.len() == 0 {
        Ok(Seconds(total as u64))
    } else if is_digit(t[0]) {
        let n = first_in(t, ByteClass::NonDigit);
        proof {
            lemma_first_in_bounds(t, ByteClass::NonDigit);
        }
        match spec_parse_u64(t.subrange(0, n)) {
            None => Err(ParseDurationError::InvalidNumber),
            Some(num) => if n < t.len() {
                match unit_seconds(ascii_lower(t[n])) {
                    None => Err(ParseDurationError::InvalidUnit),
                    Some(mult) => if num * mult > u64::MAX || total + num * mult > u64::MAX {
                        Err(ParseDurationError::Overflow)
                    } else {
                        scan_duration(t.subrange(n + 1, t.len() as int), (total + num * mult) as nat)
                    },
                }
            } else if total + num > u64::MAX {
                Err(ParseDurationError::Overflow)
            } else {
                Ok(Seconds((total + num) as u64))
            },
        }
    } else if is_ascii_ws(t[0]) {
        scan_duration(t.subrange(1, t.len() as int), total)
    } else {
        Err(ParseDurationError::InvalidInput)
    }
}

/// The duration written in the UTF-8 text `b`: surrounding whitespace is ignored, an
/// empty text is an error, and the components are summed.
pub open spec fn spec_parse_duration(b: Seq<u8>) -> Result<Seconds, ParseDurationError> {
    let t = trim(b);
    if t.len() == 0 {
        Err(ParseDurationError::EmptyInput)
    } else {
        scan_duration(t, 0)
    }
}

/// Parses a duration such as "90", "5m", "1h30m" or "1d 2h 3m 4s".
pub fn parse_duration(s: &str) -> (res: Result<Seconds, ParseDurationError>)
    ensures
        res == spec_parse_duration(s.spec_bytes()),
{
    let b = s.as_bytes();
    assert(b@.subrange(0, b@.len() as int) =~= b@);
    let (lo, hi) = trim_bounds(b, 0, b.len());
    if lo == hi {
        return Err(ParseDurationError::EmptyInput);
    }
    let ghost t = b@.subrange(lo as int, hi as int);
    let mut total = Seconds(0);
    let mut i = lo;
    while i < hi
        invariant
            lo <= i <= hi <= b@.len(),
            t == b@.subrange(lo as int, hi as int),
            spec_parse_duration(s.spec_bytes()) == scan_duration(t, 0),
            scan_duration(t, 0) == scan_duration(b@.subrange(i as int, hi as int), total.0 as nat),
        decreases hi - i,
    {
        let ghost cur = b@.subrange(i as int, hi as int);
        let c = b[i];
        assert(cur[0] == c);
        if 48 <= c && c <= 57 {
            let n = find_class(b, i, hi, ByteClass::NonDigit);
            proof {
                lemma_first_in_bounds(cur, ByteClass::NonDigit);
            }
            let end = i + n;
            assert(cur.subrange(0, n as int) =~= b@.subrange(i as int, end as int));
            let num = match parse_u64_at(b, i, end) {
                Some(v) => v,
                None => return Err(ParseDurationError::InvalidNumber),
            };
            if end < hi {
                assert(cur[n as int] == b@[end as int]);
                let u = b[end];
                let unit = if 65 <= u && u <= 90 {
                    u + 32
                } else {
                    u
                };
                let mult: u64 = if unit == 115 {
                    1
                } else if unit == 109 {
                    Minutes(1).to_seconds().0
                } else if unit == 104 {
                    Hours(1).to_seconds().0
                } else if unit == 100 {
                    Days(1).to_seconds().0
                } else {
                    return Err(ParseDurationError::InvalidUnit);
                };
                let added = match num.checked_mul(mult) {
                    Some(v) => Seconds(v),
                    None => return Err(ParseDurationError::Overflow),
                };
                total = match total.checked_add(added) {
                    Some(v) => v,
                    None => return Err(ParseDurationError::Overflow),
                };
                assert(cur.subrange(n + 1, cur.len() as int) =~= b@.subrange(end + 1, hi as int));
                i = end + 1;
            } else {
                total = match total.checked_add(Seconds(num)) {
                    Some(v) => v,
                    None => return Err(ParseDurationError::Overflow),
                };
                i = end;
                assert(b@.subrange(i as int, hi as int).len() == 0);
            }
        } else if c == 32 || c == 9 || c == 10 || c == 12 || c == 13 {
            assert(cur.subrange(1, cur.len() as int) =~= b@.subrange(i + 1, hi as int));
            i += 1;
        } else {
            return Err(ParseDurationError::InvalidInput);
        }
    }
    Ok(total)
}

proof fn lemma_decimal_bytes_value(x: nat)
    ensures
        decimal_bytes(x).len() >= 1,
        all_digits(decimal_bytes(x)),
        digits_value(decimal_bytes(x)) == x,
    decreases x,
{
    if x >= 10 {
        lemma_decimal_bytes_value(x / 10);
        let d = decimal_bytes(x);
        assert(d.drop_last() =~= decimal_bytes(x / 10));
        vstd::arithmetic::div_mod::lemma_fundamental_div_mod(x as int, 10);
        assert(d.last() == digit_byte((x % 10) as int));
        assert(digits_value(d) == digits_value(d.drop_last()) * 10 + (d.last() - 48) as nat);
        assert forall|k: int| 0 <= k < d.len() implies is_digit(#[trigger] d[k]) by {
            if k < d.len() - 1 {
                assert(d[k] == decimal_bytes(x / 10)[k]);
            }
        }
    } else {
        let d = decimal_bytes(x);
        assert(d.drop_last() =~= Seq::<u8>::empty());
        assert(digits_value(Seq::<u8>::empty()) == 0);
        assert(digits_value(d) == digits_value(d.drop_last()) * 10 + (d.last() - 48) as nat);
    }
}

/// Scanning a component written as `x` followed by unit letter `u` adds its seconds.
proof fn lemma_scan_component(x: nat, u: u8, mult: u64, rest: Seq<u8>, acc: nat)
    requires
        unit_seconds(u) == Some(mult),
        x <= u64::MAX,
        acc + x * mult <= u64::MAX,
    ensures
        scan_duration(decimal_bytes(x).push(u) + rest, acc) == scan_duration(
            rest,
            (acc + x * mult) as nat,
        ),
{
    let d = decimal_bytes(x);
    let t = d.push(u) + rest;
    lemma_decimal_bytes_value(x);
    assert(t[0] == d[0]);
    assert forall|j: int| 0 <= j < d.len() implies !in_class_nondigit(#[trigger] t[j]) by {
        assert(t[j] == d[j]);
    }
    assert(t[d.len() as int] == u);
    lemma_first_in(t, ByteClass::NonDigit, d.len() as int);
    assert(t.subrange(0, d.len() as int) =~= d);
    assert(t.subrange(d.len() + 1int, t.len() as int) =~= rest);
    assert(0 <= x * mult) by (nonlinear_arith);
}

spec fn in_class_nondigit(b: u8) -> bool {
    !is_digit(b)
}

proof fn lemma_human_part_scan(count: nat, u: u8, mult: u64, rest: Seq<u8>, acc: nat)
    requires
        unit_seconds(u) == Some(mult),
        count <= u64::MAX,
        acc + count * mult <= u64::MAX,
    ensures
        scan_duration(human_part(count, u) + rest, acc) == scan_duration(rest, (acc + count * mult) as nat),
{
    if count > 0 {
        lemma_scan_component(count, u, mult, rest, acc);
    } else {
        assert(human_part(count, u) + rest =~= rest);
    }
}

proof fn lemma_scan_four_parts(dd: nat, hh: nat, mm: nat, ss: nat)
    requires
        dd * 86400 + hh * 3600 + mm * 60 + ss <= u64::MAX,
    ensures
        scan_duration(
            human_part(dd, 100u8) + human_part(hh, 104u8) + human_part(mm, 109u8) + human_part(
                ss,
                115u8,
            ),
            0,
        ) == Ok::<Seconds, ParseDurationError>(
            Seconds((dd * 86400 + hh * 3600 + mm * 60 + ss) as u64),
        ),
{
    assert(0 <= dd * 86400 && 0 <= hh * 3600 && 0 <= mm * 60) by (nonlinear_arith);
    let a = human_part(dd, 100u8);
    let b = human_part(hh, 104u8);
    let c = human_part(mm, 109u8);
    let d = human_part(ss, 115u8);
    let e = Seq::<u8>::empty();
    assert(a + b + c + d =~= a + (b + (c + (d + e))));
    lemma_human_part_scan(ss, 115u8, 1, e, (dd * 86400 + hh * 3600 + mm * 60) as nat);
    lemma_human_part_scan(mm, 109u8, 60, d + e, (dd * 86400 + hh * 3600) as nat);
    lemma_human_part_scan(hh, 104u8, 3600, c + (d + e), (dd * 86400) as nat);
    lemma_human_part_scan(dd, 100u8, 86400, b + (c + (d + e)), 0);
}

/// Law: the human-readable form of a duration parses back to the same duration.
pub proof fn lemma_parse_human_roundtrip(n: u64)
    ensures
        spec_parse_duration(human_bytes(n as nat)) == Ok::<Seconds, ParseDurationError>(
            Seconds(n),
        ),
{
    let h = human_bytes(n as nat);
    if n == 0 {
        lemma_scan_component(0, 115u8, 1, Seq::empty(), 0);
        assert(decimal_bytes(0).push(115u8) + Seq::<u8>::empty() =~= h);
        lemma_trim_human(h);
    } else {
        let s1 = (n % 86400) as nat;
        let s2 = s1 % 3600;
        let dd = (n / 86400) as nat;
        let hh = s1 / 3600;
        let mm = s2 / 60;
        let ss = s2 % 60;
        assert(dd * 86400 + hh * 3600 + mm * 60 + ss == n) by {
            vstd::arithmetic::div_mod::lemma_fundamental_div_mod(n as int, 86400);
            vstd::arithmetic::div_mod::lemma_fundamental_div_mod(s1 as int, 3600);
            vstd::arithmetic::div_mod::lemma_fundamental_div_mod(s2 as int, 60);
        }
        lemma_scan_four_parts(dd, hh, mm, ss);
        assert(h == human_part(dd, 100u8) + human_part(hh, 104u8) + human_part(mm, 109u8)
            + human_part(ss, 115u8));
        lemma_human_nonempty(dd, hh, mm, ss);
        lemma_trim_human(h);
    }
}

proof fn lemma_human_nonempty(dd: nat, hh: nat, mm: nat, ss: nat)
    requires
        dd > 0 || hh > 0 || mm > 0 || ss > 0,
    ensures
        ({
            let h = human_part(dd, 100u8) + human_part(hh, 104u8) + human_part(mm, 109u8)
                + human_part(ss, 115u8);
            &&& h.len() >= 1
            &&& is_digit(h[0])
            &&& (h.last() == 100u8 || h.last() == 104u8 || h.last() == 109u8 || h.last() == 115u8)
        }),
{
    lemma_decimal_bytes_value(dd);
    lemma_decimal_bytes_value(hh);
    lemma_decimal_bytes_value(mm);
    lemma_decimal_bytes_value(ss);
    let a = human_part(dd, 100u8);
    let b = human_part(hh, 104u8);
    let c = human_part(mm, 109u8);
    let d = human_part(ss, 115u8);
    let h = a + b + c + d;
    if dd > 0 {
        assert(h[0] == a[0]);
        assert(a[0] == decimal_bytes(dd)[0]);
    } else if hh > 0 {
        assert(h[0] == b[0]);
        assert(b[0] == decimal_bytes(hh)[0]);
    } else if mm > 0 {
        assert(h[0] == c[0]);
        assert(c[0] == decimal_bytes(mm)[0]);
    } else {
        assert(h[0] == d[0]);
        assert(d[0] == decimal_bytes(ss)[0]);
    }
    if ss > 0 {
        assert(h.last() == d.last());
    } else if mm > 0 {
        assert(h =~= a + b + c);
        assert(h.last() == c.last());
    } else if hh > 0 {
        assert(h =~= a + b);
        assert(h.last() == b.last());
    } else {
        assert(h =~= a);
    }
}

/// The human-readable form has no surrounding whitespace: it starts with a digit and
/// ends with a unit letter.
proof fn lemma_trim_human(h: Seq<u8>)
    requires
        h.len() >= 1,
        is_digit(h[0]),
        h.last() == 100u8 || h.last() == 104u8 || h.last() == 109u8 || h.last() == 115u8,
    ensures
        trim(h) == h,
{
    assert(ws_prefix_len(h) == 0);
    assert(ws_suffix_len(h) == 0);
}

/// Lower-casing leaves the scan of duration components as it is.
proof fn lemma_scan_lower(t: Seq<u8>, total: nat)
    ensures
        scan_duration(lower_bytes(t), total) == scan_duration(t, total),
    decreases t.len(),
{
    let l = lower_bytes(t);
    if t.len() > 0 {
        assert(l[0] == ascii_lower(t[0]));
        if is_digit(t[0]) {
            let n = first_in(t, ByteClass::NonDigit);
            lemma_first_in_bounds(t, ByteClass::NonDigit);
            lemma_lower_first_in(t, ByteClass::NonDigit);
            lemma_lower_subrange(t, 0, n);
            lemma_lower_parse_u64(t.subrange(0, n));
            if n < t.len() {
                assert(l[n] == ascii_lower(t[n]));
                lemma_lower_subrange(t, n + 1, t.len() as int);
                if let Some(num) = spec_parse_u64(t.subrange(0, n)) {
                    if let Some(mult) = unit_seconds(ascii_lower(t[n])) {
                        if num * mult <= u64::MAX && total + num * mult <= u64::MAX {
                            lemma_scan_lower(t.subrange(n + 1, t.len() as int), (total + num * mult) as nat);
                        }
                    }
                }
            }
        } else if is_ascii_ws(t[0]) {
            lemma_lower_subrange(t, 1, t.len() as int);
            lemma_scan_lower(t.subrange(1, t.len() as int), total);
        }
    }
}

/// Whether nothing written after `t` can join its last number: it is empty or ends with a
/// byte other than a digit.
pub open spec fn closed_text(t: Seq<u8>) -> bool {
    t.len() == 0 || !is_digit(t.last())
}

/// A successful scan never ends below the count it started from.
proof fn lemma_scan_grows(t: Seq<u8>, acc: nat)
    requires
        acc <= u64::MAX,
    ensures
        scan_duration(t, acc) matches Ok(v) ==> acc <= v.0,
    decreases t.len(),
{
    if t.len() > 0 {
        if is_digit(t[0]) {
            let n = first_in(t, ByteClass::NonDigit);
            lemma_first_in_bounds(t, ByteClass::NonDigit);
            if n < t.len() {
                if let Some(num) = spec_parse_u64(t.subrange(0, n)) {
                    if let Some(mult) = unit_seconds(ascii_lower(t[n])) {
                        assert(0 <= num * mult) by (nonlinear_arith);
                        if num * mult <= u64::MAX && acc + num * mult <= u64::MAX {
                            lemma_scan_grows(t.subrange(n + 1, t.len() as int), (acc + num * mult) as nat);
                        }
                    }
                }
            }
        } else if is_ascii_ws(t[0]) {
            lemma_scan_grows(t.subrange(1, t.len() as int), acc);
        }
    }
}

/// Starting a successful scan `k` higher ends it `k` higher, while that fits in a `u64`.
proof fn lemma_scan_shift(t: Seq<u8>, acc: nat, k: nat)
    requires
        acc <= u64::MAX,
        scan_duration(t, acc) matches Ok(v) && v.0 + k <= u64::MAX,
    ensures
        scan_duration(t, acc + k) == Ok::<Seconds, ParseDurationError>(
            Seconds((scan_duration(t, acc)->Ok_0.0 + k) as u64),
        ),
    decreases t.len(),
{
    if t.len() > 0 {
        if is_digit(t[0]) {
            let n = first_in(t, ByteClass::NonDigit);
            lemma_first_in_bounds(t, ByteClass::NonDigit);
            if n < t.len() {
                let num = spec_parse_u64(t.subrange(0, n))->Some_0;
                let mult = unit_seconds(ascii_lower(t[n]))->Some_0;
                assert(0 <= num * mult) by (nonlinear_arith);
                let rest = t.subrange(n + 1, t.len() as int);
                lemma_scan_grows(rest, (acc + num * mult) as nat);
                lemma_scan_shift(rest, (acc + num * mult) as nat, k);
                assert((acc + k + num * mult) as nat == (acc + num * mult) as nat + k);
            }
        } else {
            lemma_scan_shift(t.subrange(1, t.len() as int), acc, k);
        }
    }
}

/// Scanning `t` and then `rest` is scanning `t + rest`, when nothing in `rest` can join
/// the last number of `t`.
proof fn lemma_scan_concat(t: Seq<u8>, rest: Seq<u8>, acc: nat)
    requires
        acc <= u64::MAX,
        scan_duration(t, acc) is Ok,
        closed_text(t),
    ensures
        scan_duration(t + rest, acc) == scan_duration(
            rest,
            scan_duration(t, acc)->Ok_0.0 as nat,
        ),
    decreases t.len(),
{
    let tt = t + rest;
    if t.len() == 0 {
        assert(tt =~= rest);
    } else {
        assert(tt[0] == t[0]);
        if is_digit(t[0]) {
            let n = first_in(t, ByteClass::NonDigit);
            lemma_first_in_bounds(t, ByteClass::NonDigit);
            if n == t.len() {
                assert(!in_class(ByteClass::NonDigit, t[t.len() - 1]));
            }
            assert(n < t.len());
            assert forall|j: int| 0 <= j < n implies !in_class(ByteClass::NonDigit, #[trigger] tt[j]) by {
                assert(tt[j] == t[j]);
                assert(!in_class(ByteClass::NonDigit, t[j]));
            }
            assert(tt[n] == t[n]);
            lemma_first_in(tt, ByteClass::NonDigit, n);
            assert(tt.subrange(0, n) =~= t.subrange(0, n));
            let num = spec_parse_u64(t.subrange(0, n))->Some_0;
            let mult = unit_seconds(ascii_lower(t[n]))->Some_0;
            assert(0 <= num * mult) by (nonlinear_arith);
            let t2 = t.subrange(n + 1, t.len() as int);
            assert(tt.subrange(n + 1, tt.len() as int) =~= t2 + rest);
            if t2.len() > 0 {
                assert(t2.last() == t.last());
            }
            lemma_scan_concat(t2, rest, (acc + num * mult) as nat);
        } else {
            let t2 = t.subrange(1, t.len() as int);
            assert(tt.subrange(1, tt.len() as int) =~= t2 + rest);
            if t2.len() > 0 {
                assert(t2.last() == t.last());
            }
            lemma_scan_concat(t2, rest, acc);
        }
    }
}

/// Skipping ASCII whitespace between components changes nothing.
proof fn lemma_scan_skip_ws(w: Seq<u8>, t: Seq<u8>, acc: nat)
    requires
        all_ascii_ws(w),
    ensures
        scan_duration(w + t, acc) == scan_duration(t, acc),
    decreases w.len(),
{
    let wt = w + t;
    if w.len() == 0 {
        assert(wt =~= t);
    } else {
        assert(wt[0] == w[0]);
        assert(is_ascii_ws(w[0]));
        let w2 = w.subrange(1, w.len() as int);
        assert forall|k: int| 0 <= k < w2.len() implies is_ascii_ws(#[trigger] w2[k]) by {
            assert(w2[k] == w[k + 1]);
        }
        assert(wt.subrange(1, wt.len() as int) =~= w2 + t);
        lemma_scan_skip_ws(w2, t, acc);
    }
}

/// What a duration without surrounding whitespace that parses looks like: it starts with
/// a digit, has no whitespace at either end, and is scanned as it stands.
proof fn lemma_duration_core(core: Seq<u8>)
    requires
        trim(core) == core,
        spec_parse_duration(core) is Ok,
    ensures
        core.len() > 0,
        is_digit(core[0]),
        ws_prefix_len(core) == 0,
        ws_suffix_len(core) == 0,
        scan_duration(core, 0) == spec_parse_duration(core),
{
    lemma_trimmed_ends(core);
}

/// A text that starts with a digit starts with no whitespace.
proof fn lemma_digit_first(x: Seq<u8>)
    requires
        x.len() > 0,
        is_digit(x[0]),
    ensures
        ws_prefix_len(x) == 0,
{
}

/// `core` with whitespace `lead` before it and `trail` after it parses as `core` does.
proof fn lemma_padded_duration(lead: Seq<u8>, core: Seq<u8>, trail: Seq<u8>)
    requires
        trim_start(lead).len() == 0,
        trim_end(trail).len() == 0,
        trim(core) == core,
        spec_parse_duration(core) is Ok,
    ensures
        spec_parse_duration(lead + core + trail) == spec_parse_duration(core),
{
    lemma_duration_core(core);
    let x = core + trail;
    assert(x[0] == core[0]);
    lemma_digit_first(x);
    assert(lead + core + trail =~= lead + x);
    lemma_trim_start_pad(lead, x);
    lemma_trim_end_pad(core, trail);
}

/// Law: two durations, each written as a core without surrounding whitespace and any
/// whitespace around it (ASCII whitespace where they meet), parse when joined by a space
/// to the sum of their parts, when the first core ends with a unit letter and the sum
/// fits in a `u64`. Non-ASCII whitespace where they meet is trimmed from each part alone
/// but refused between components.
pub proof fn lemma_parse_duration_sum(
    lead_a: Seq<u8>,
    core_a: Seq<u8>,
    trail_a: Seq<u8>,
    lead_b: Seq<u8>,
    core_b: Seq<u8>,
    trail_b: Seq<u8>,
    da: u64,
    db: u64,
)
    requires
        trim_start(lead_a).len() == 0,
        all_ascii_ws(trail_a),
        all_ascii_ws(lead_b),
        trim_end(trail_b).len() == 0,
        trim(core_a) == core_a,
        trim(core_b) == core_b,
        !is_digit(core_a.last()),
        spec_parse_duration(core_a) == Ok::<Seconds, ParseDurationError>(Seconds(da)),
        spec_parse_duration(core_b) == Ok::<Seconds, ParseDurationError>(Seconds(db)),
        da + db <= u64::MAX,
    ensures
        spec_parse_duration(lead_a + core_a + trail_a) == Ok::<Seconds, ParseDurationError>(
            Seconds(da),
        ),
        spec_parse_duration(lead_b + core_b + trail_b) == Ok::<Seconds, ParseDurationError>(
            Seconds(db),
        ),
        spec_parse_duration(lead_a + core_a + trail_a + seq![32u8] + (lead_b + core_b + trail_b))
            == Ok::<Seconds, ParseDurationError>(Seconds((da + db) as u64)),
{
    lemma_ascii_ws_trims(trail_a);
    lemma_ascii_ws_trims(lead_b);
    lemma_padded_duration(lead_a, core_a, trail_a);
    lemma_padded_duration(lead_b, core_b, trail_b);
    lemma_duration_core(core_a);
    lemma_duration_core(core_b);
    let mid = trail_a + seq![32u8] + lead_b;
    assert forall|k: int| 0 <= k < mid.len() implies is_ascii_ws(#[trigger] mid[k]) by {
        if k < trail_a.len() {
            assert(mid[k] == trail_a[k]);
        } else if k > trail_a.len() {
            assert(mid[k] == lead_b[k - trail_a.len() - 1]);
        }
    }
    let y = core_a + (mid + core_b);
    let x = y + trail_b;
    let j = lead_a + core_a + trail_a + seq![32u8] + (lead_b + core_b + trail_b);
    assert(j =~= lead_a + x);
    assert(x[0] == core_a[0]);
    lemma_digit_first(x);
    lemma_trim_start_pad(lead_a, x);
    let n = y.len() as int;
    let m = core_b.len() as int;
    assert(y[n - 1] == core_b[m - 1]);
    if m >= 2 {
        assert(y[n - 2] == core_b[m - 2]);
    }
    if m >= 3 {
        assert(y[n - 3] == core_b[m - 3]);
    }
    assert(ws_suffix_len(y) == 0);
    lemma_trim_end_pad(y, trail_b);
    assert(trim(j) == y);
    lemma_scan_concat(core_a, mid + core_b, 0);
    lemma_scan_skip_ws(mid, core_b, da as nat);
    lemma_scan_shift(core_b, 0, da as nat);
}

/// Law: a number followed by a unit letter is that many seconds ('s'), minutes ('m'),
/// hours ('h') or days ('d'), in either case, whenever the product fits in a `u64`.
pub proof fn lemma_unit_component(ds: Seq<u8>, u: u8, mult: int)
    requires
        ds.len() > 0,
        all_digits(ds),
        (u == 115 || u == 83) && mult == 1 || (u == 109 || u == 77) && mult == 60 || (u == 104
            || u == 72) && mult == 3600 || (u == 100 || u == 68) && mult == 86400,
        digits_value(ds) * mult <= u64::MAX,
    ensures
        spec_parse_duration(ds.push(u)) == Ok::<Seconds, ParseDurationError>(
            Seconds((digits_value(ds) * mult) as u64),
        ),
{
    let t = ds.push(u);
    let n = ds.len() as int;
    assert(0 <= digits_value(ds) <= digits_value(ds) * mult) by (nonlinear_arith)
        requires
            mult >= 1,
    ;
    assert(t[0] == ds[0]);
    assert(is_digit(ds[0]));
    assert(ws_prefix_len(t) == 0 && ws_suffix_len(t) == 0);
    assert(trim(t) == t);
    assert forall|j: int| 0 <= j < n implies !in_class(ByteClass::NonDigit, #[trigger] t[j]) by {
        assert(t[j] == ds[j]);
    }
    lemma_first_in(t, ByteClass::NonDigit, n);
    assert(t.subrange(0, n) =~= ds);
    assert(spec_parse_u64(ds) == Some(digits_value(ds) as u64));
    assert(t[n] == u);
    assert(unit_seconds(ascii_lower(u)) == Some(mult as u64));
    let rest = t.subrange(n + 1, t.len() as int);
    assert(rest =~= Seq::<u8>::empty());
    assert(scan_duration(t, 0) == scan_duration(rest, (digits_value(ds) * mult) as nat));
}

/// Law: the case of the unit letters does not matter; a text parses as its lower-case form.
pub proof fn lemma_parse_duration_ignores_case(b: Seq<u8>)
    ensures
        spec_parse_duration(lower_bytes(b)) == spec_parse_duration(b),
{
    lemma_lower_trim(b);
    lemma_scan_lower(trim(b), 0);
}

/// Seconds east of UTC for `sign` (1 or -1), `h` hours and `m` minutes; `None` when
/// `h` hours and `m` minutes come to more than `i32::MAX` seconds.
pub open spec fn offset_value(sign: int, h: int, m: int) -> Option<i32> {
    let t = h * 3600 + m * 60;
    if t <= i32::MAX {
        Some((sign * t) as i32)
    } else {
        None
    }
}

/// Hours and minutes of the digits after an offset's sign: "HH:MM" (any digit counts),
/// "HHMM" or "HH". The outer `None` marks a four-byte text split inside a character;
/// the inner `None` marks text that is not an offset.
pub open spec fn offset_fields(r: Seq<u8>) -> Option<Option<(int, int)>> {
    let pos = first_in(r, ByteClass::Colon);
    if pos < r.len() {
        match (
            spec_parse_u64(r.subrange(0, pos)),
            spec_parse_u64(r.subrange(pos + 1, r.len() as int)),
        ) {
            (Some(h), Some(m)) => Some(Some((h as int, m as int))),
            _ => Some(None),
        }
    } else if r.len() == 4 {
        if !char_boundary(r, 2) {
            None
        } else {
            match (spec_parse_u64(r.subrange(0, 2)), spec_parse_u64(r.subrange(2, 4))) {
                (Some(h), Some(m)) => Some(Some((h as int, m as int))),
                _ => Some(None),
            }
        }
    } else if r.len() == 2 {
        match spec_parse_u64(r) {
            Some(h) => Some(Some((h as int, 0))),
            None => Some(None),
        }
    } else {
        Some(None)
    }
}

/// A UTC offset such as "+02:00", "-0500" or "+05" in seconds east of UTC. The outer
/// `None` marks input on which the computation has no result (see [`offset_fields`]);
/// the inner `None` marks text that is not an offset, or one beyond `i32::MAX` seconds.
pub open spec fn spec_parse_offset(s0: Seq<u8>) -> Option<Option<i32>> {
    let s = trim(s0);
    if s.len() == 0 || !(s[0] == 43 || s[0] == 45) {
        Some(None)
    } else {
        let sign: int = if s[0] == 43 {
            1
        } else {
            -1
        };
        match offset_fields(s.subrange(1, s.len() as int)) {
            None => None,
            Some(None) => Some(None),
            Some(Some((h, m))) => Some(offset_value(sign, h, m)),
        }
    }
}

/// Parses a UTC offset in `b[lo..hi]`; see [`spec_parse_offset`].
fn parse_offset_at(b: &[u8], lo: usize, hi: usize) -> (res: Option<Option<i32>>)
    requires
        lo <= hi <= b@.len(),
    ensures
        res == spec_parse_offset(b@.subrange(lo as int, hi as int)),
{
    let (lo, hi) = trim_bounds(b, lo, hi);
    let ghost s = b@.subrange(lo as int, hi as int);
    if lo == hi {
        return Some(None);
    }
    assert(s[0] == b@[lo as int]);
    let sign: i64 = if b[lo] == 43 {
        1
    } else if b[lo] == 45 {
        -1
    } else {
        return Some(None);
    };
    assert(s.subrange(1, s.len() as int) =~= b@.subrange(lo + 1, hi as int));
    let (h, m) = match offset_fields_at(b, lo + 1, hi) {
        None => return None,
        Some(None) => return Some(None),
        Some(Some(f)) => f,
    };
    Some(offset_value_of(sign, h, m))
}

/// [`offset_fields`] over `b[lo..hi]`, with the numbers as `u64`.
fn offset_fields_at(b: &[u8], lo: usize, hi: usize) -> (res: Option<Option<(u64, u64)>>)
    requires
        lo <= hi <= b@.len(),
    ensures
        match res {
            None => offset_fields(b@.subrange(lo as int, hi as int)) is None,
            Some(None) => offset_fields(b@.subrange(lo as int, hi as int)) == Some(
                None::<(int, int)>,
            ),
            Some(Some((h, m))) => offset_fields(b@.subrange(lo as int, hi as int)) == Some(
                Some((h as int, m as int)),
            ),
        },
{
    let ghost r = b@.subrange(lo as int, hi as int);
    let pos = find_class(b, lo, hi, ByteClass::Colon);
    if pos < hi - lo {
        assert(r.subrange(0, pos as int) =~= b@.subrange(lo as int, (lo + pos) as int));
        assert(r.subrange(pos + 1, r.len() as int) =~= b@.subrange((lo + pos + 1) as int, hi as int));
        match (parse_u64_at(b, lo, lo + pos), parse_u64_at(b, lo + pos + 1, hi)) {
            (Some(x), Some(y)) => Some(Some((x, y))),
            _ => Some(None),
        }
    } else if hi - lo == 4 {
        assert(r[2] == b@[lo + 2]);
        let c = b[lo + 2];
        if !(c < 0x80 || c >= 0xC0) {
            return None;
        }
        assert(r.subrange(0, 2) =~= b@.subrange(lo as int, lo + 2));
        assert(r.subrange(2, 4) =~= b@.subrange(lo + 2, hi as int));
        match (parse_u64_at(b, lo, lo + 2), parse_u64_at(b, lo + 2, hi)) {
            (Some(x), Some(y)) => Some(Some((x, y))),
            _ => Some(None),
        }
    } else if hi - lo == 2 {
        match parse_u64_at(b, lo, hi) {
            Some(x) => Some(Some((x, 0))),
            None => Some(None),
        }
    } else {
        Some(None)
    }
}

/// [`offset_value`] for hour and minute counts that fit in a `u64`.
fn offset_value_of(sign: i64, h: u64, m: u64) -> (res: Option<i32>)
    requires
        sign == 1 || sign == -1,
    ensures
        res == offset_value(sign as int, h as int, m as int),
{
    let t: u128 = h as u128 * 3600 + m as u128 * 60;
    if t > 0x7fff_ffffu128 {
        return None;
    }
    let v: i64 = sign * (t as i64);
    Some(v as i32)
}

/// The value of two decimal digits.
pub open spec fn two_digits(a: u8, b: u8) -> int {
    (a - 48) * 10 + (b - 48)
}

proof fn lemma_two_digits(a: u8, b: u8)
    requires
        is_digit(a),
        is_digit(b),
    ensures
        spec_parse_u64(seq![a, b]) == Some((two_digits(a, b)) as u64),
{
    let s = seq![a, b];
    let s1 = seq![a];
    assert(s.drop_last() =~= s1);
    assert(s1.drop_last() =~= Seq::<u8>::empty());
    assert(digits_value(Seq::<u8>::empty()) == 0);
    assert(digits_value(s1) == digits_value(s1.drop_last()) * 10 + (s1.last() - 48) as nat);
    assert(digits_value(s) == digits_value(s.drop_last()) * 10 + (s.last() - 48) as nat);
    assert forall|k: int| 0 <= k < s.len() implies is_digit(#[trigger] s[k]) by {}
}

/// A text of sign and digits has no whitespace to trim.
proof fn lemma_no_ws_ends(s: Seq<u8>)
    requires
        s.len() >= 3,
        s[0] == 43 || s[0] == 45,
        is_digit(s[s.len() - 1]),
        is_digit(s[s.len() - 2]),
    ensures
        trim(s) == s,
{
    assert(ws_prefix_len(s) == 0);
    assert(ws_suffix_len(s) == 0);
}

/// Law: the three spellings of a UTC offset agree: "+HH" is HH hours east, "+HH:MM" and
/// "+HHMM" are HH hours and MM minutes east; with '-' they are as far west.
pub proof fn lemma_offset_spellings(sign: u8, h1: u8, h2: u8, m1: u8, m2: u8)
    requires
        sign == 43 || sign == 45,
        is_digit(h1),
        is_digit(h2),
        is_digit(m1),
        is_digit(m2),
    ensures
        ({
            let dir: int = if sign == 43 {
                1
            } else {
                -1
            };
            let hh = two_digits(h1, h2);
            let mm = two_digits(m1, m2);
            &&& spec_parse_offset(seq![sign, h1, h2]) == Some(Some((dir * hh * 3600) as i32))
            &&& spec_parse_offset(seq![sign, h1, h2, 58u8, m1, m2]) == Some(
                Some((dir * (hh * 3600 + mm * 60)) as i32),
            )
            &&& spec_parse_offset(seq![sign, h1, h2, m1, m2]) == Some(
                Some((dir * (hh * 3600 + mm * 60)) as i32),
            )
        }),
{
    lemma_two_digits(h1, h2);
    lemma_two_digits(m1, m2);
    let a = seq![sign, h1, h2];
    let b = seq![sign, h1, h2, 58u8, m1, m2];
    let c = seq![sign, h1, h2, m1, m2];
    lemma_no_ws_ends(a);
    lemma_no_ws_ends(b);
    lemma_no_ws_ends(c);
    let ra = a.subrange(1, 3);
    let rb = b.subrange(1, 6);
    let rc = c.subrange(1, 5);
    assert(ra =~= seq![h1, h2]);
    assert(rb.subrange(0, 2) =~= seq![h1, h2]);
    assert(rb.subrange(3, 5) =~= seq![m1, m2]);
    assert(rc.subrange(0, 2) =~= seq![h1, h2]);
    assert(rc.subrange(2, 4) =~= seq![m1, m2]);
    lemma_first_in(ra, ByteClass::Colon, 2);
    lemma_first_in(rb, ByteClass::Colon, 2);
    lemma_first_in(rc, ByteClass::Colon, 4);
    let hh = two_digits(h1, h2);
    let mm = two_digits(m1, m2);
    assert(offset_fields(ra) == Some(Some((hh, 0int))));
    assert(offset_fields(rb) == Some(Some((hh, mm))));
    assert(char_boundary(rc, 2));
    assert(offset_fields(rc) == Some(Some((hh, mm))));
    assert(a.subrange(1, a.len() as int) == ra);
    assert(b.subrange(1, b.len() as int) == rb);
    assert(c.subrange(1, c.len() as int) == rc);
}

/// Hour, minute, second and, when the text names one, the UTC offset in seconds.
pub type TimeOfDay = (Hour24, Minute, Second, Option<i32>);

/// The 24-hour clock hour of 12-hour clock hour `h` (1 to 12), before noon or after it.
pub open spec fn hour_from_12h(h: u64, pm: bool) -> u64 {
    if pm {
        if h == 12 {
            12
        } else {
            (h + 12) as u64
        }
    } else if h == 12 {
        0
    } else {
        h
    }
}

/// A number field of a time.
pub open spec fn time_number(f: Seq<u8>) -> Result<u64, ParseDateTimeError> {
    match spec_parse_u64(f) {
        Some(v) => Ok(v),
        None => Err(ParseDateTimeError::InvalidFormat),
    }
}

/// The time of day from its hour, minute and second fields. Minutes may be left out only
/// with "am"/"pm", seconds always; a 12-hour clock hour must be 1 to 12; the result must be
/// a valid time of day.
pub open spec fn time_from_fields(
    h_str: Seq<u8>,
    m_str: Option<Seq<u8>>,
    s_str: Option<Seq<u8>>,
    ampm: Option<bool>,
    off: Option<i32>,
) -> Result<TimeOfDay, ParseDateTimeError> {
    match time_number(h_str) {
        Err(e) => Err(e),
        Ok(h_raw) => {
            let m_res = match m_str {
                Some(ms) => time_number(ms),
                None => if ampm is Some {
                    Ok(0u64)
                } else {
                    Err(ParseDateTimeError::InvalidFormat)
                },
            };
            match m_res {
                Err(e) => Err(e),
                Ok(m) => {
                    let s_res = match s_str {
                        Some(ss) => time_number(ss),
                        None => Ok(0u64),
                    };
                    match s_res {
                        Err(e) => Err(e),
                        Ok(sec) => {
                            let h_res = match ampm {
                                Some(pm) => if h_raw == 0 || h_raw > 12 {
                                    Err(ParseDateTimeError::InvalidValue)
                                } else {
                                    Ok(hour_from_12h(h_raw, pm))
                                },
                                None => Ok(h_raw),
                            };
                            match h_res {
                                Err(e) => Err(e),
                                Ok(h) => if h < 24 && m < 60 && sec < 60 {
                                    Ok((Hour24(h as u8), Minute(m as u8), Second(sec as u8), off))
                                } else {
                                    Err(ParseDateTimeError::InvalidValue)
                                },
                            }
                        },
                    }
                },
            }
        },
    }
}

/// The ':'-separated fields of `tp`: the hour, then the minute and second if present;
/// `None` when there are more than three fields.
pub open spec fn split_time_fields(tp: Seq<u8>) -> Option<(Seq<u8>, Option<Seq<u8>>, Option<Seq<u8>>)> {
    let c1 = first_in(tp, ByteClass::Colon);
    if c1 >= tp.len() {
        Some((tp, None, None))
    } else {
        let rest1 = tp.subrange(c1 + 1, tp.len() as int);
        let c2 = first_in(rest1, ByteClass::Colon);
        if c2 >= rest1.len() {
            Some((tp.subrange(0, c1), Some(rest1), None))
        } else {
            let rest2 = rest1.subrange(c2 + 1, rest1.len() as int);
            if first_in(rest2, ByteClass::Colon) < rest2.len() {
                None
            } else {
                Some((tp.subrange(0, c1), Some(rest1.subrange(0, c2)), Some(rest2)))
            }
        }
    }
}

/// Whether `raw` ends with "am" (`Some(false)`) or "pm" (`Some(true)`) in any case.
pub open spec fn ampm_suffix(raw: Seq<u8>) -> Option<bool> {
    let k = raw.len() as int;
    if k >= 2 && ascii_lower(raw[k - 2]) == 97 && ascii_lower(raw[k - 1]) == 109 {
        Some(false)
    } else if k >= 2 && ascii_lower(raw[k - 2]) == 112 && ascii_lower(raw[k - 1]) == 109 {
        Some(true)
    } else {
        None
    }
}

/// `raw` without its "am"/"pm" suffix (and the whitespace before it).
pub open spec fn clock_part(raw: Seq<u8>) -> Seq<u8> {
    if ampm_suffix(raw) is Some {
        trim(raw.subrange(0, raw.len() - 2))
    } else {
        raw
    }
}

/// The time of day in `tp` once split at ':'.
pub open spec fn time_from_clock(tp: Seq<u8>, ampm: Option<bool>, off: Option<i32>) -> Result<
    TimeOfDay,
    ParseDateTimeError,
> {
    match split_time_fields(tp) {
        None => Err(ParseDateTimeError::InvalidFormat),
        Some((h, m, sec)) => time_from_fields(h, m, sec, ampm, off),
    }
}

/// The time of day in `raw` (offset already removed): an optional "am"/"pm" suffix in
/// either case, then `H[:M[:S]]`.
pub open spec fn time_from_raw(raw: Seq<u8>, off: Option<i32>) -> Result<TimeOfDay, ParseDateTimeError> {
    time_from_clock(clock_part(raw), ampm_suffix(raw), off)
}

/// Whether `s` ends with "utc" in any case.
pub open spec fn ends_with_utc(s: Seq<u8>) -> bool {
    let n = s.len() as int;
    n >= 3 && ascii_lower(s[n - 3]) == 117 && ascii_lower(s[n - 2]) == 116 && ascii_lower(
        s[n - 1],
    ) == 99
}

/// A time of day such as "08:00", "23:59:59Z", "12:00 UTC", "6pm" or "1:00pm+02:00".
/// A trailing 'Z' or "UTC" means offset 0; otherwise the first '+' or '-' starts an
/// offset. `None` marks input on which the computation has no result (see
/// [`spec_parse_offset`]).
pub open spec fn spec_parse_time(s0: Seq<u8>) -> Option<Result<TimeOfDay, ParseDateTimeError>> {
    let s = trim(s0);
    let n = s.len() as int;
    if n > 0 && s[n - 1] == 90 {
        Some(time_from_raw(s.subrange(0, n - 1), Some(0i32)))
    } else if ends_with_utc(s) {
        Some(time_from_raw(trim(s.subrange(0, n - 3)), Some(0i32)))
    } else {
        let pos = first_in(s, ByteClass::Sign);
        if pos < n {
            match spec_parse_offset(s.subrange(pos, n)) {
                None => None,
                Some(None) => Some(Err(ParseDateTimeError::InvalidFormat)),
                Some(Some(o)) => Some(time_from_raw(trim(s.subrange(0, pos)), Some(o))),
            }
        } else {
            Some(time_from_raw(s, None))
        }
    }
}

/// `HH:MM` with the fields of `s` (and `:SS` when `sec` holds two more digits) splits into
/// those fields.
proof fn lemma_split_clock(h1: u8, h2: u8, m1: u8, m2: u8, sec: Option<(u8, u8)>)
    requires
        is_digit(h1),
        is_digit(h2),
        is_digit(m1),
        is_digit(m2),
        sec matches Some((s1, s2)) ==> is_digit(s1) && is_digit(s2),
    ensures
        split_time_fields(
            match sec {
                Some((s1, s2)) => seq![h1, h2, 58u8, m1, m2, 58u8, s1, s2],
                None => seq![h1, h2, 58u8, m1, m2],
            },
        ) == Some(
            (
                seq![h1, h2],
                Some(seq![m1, m2]),
                match sec {
                    Some((s1, s2)) => Some(seq![s1, s2]),
                    None => None::<Seq<u8>>,
                },
            ),
        ),
{
    let tp = match sec {
        Some((s1, s2)) => seq![h1, h2, 58u8, m1, m2, 58u8, s1, s2],
        None => seq![h1, h2, 58u8, m1, m2],
    };
    lemma_first_in(tp, ByteClass::Colon, 2);
    let rest1 = tp.subrange(3, tp.len() as int);
    assert(tp.subrange(0, 2) =~= seq![h1, h2]);
    match sec {
        Some((s1, s2)) => {
            assert(rest1 =~= seq![m1, m2, 58u8, s1, s2]);
            lemma_first_in(rest1, ByteClass::Colon, 2);
            let rest2 = rest1.subrange(3, 5);
            assert(rest2 =~= seq![s1, s2]);
            assert(rest1.subrange(0, 2) =~= seq![m1, m2]);
            lemma_first_in(rest2, ByteClass::Colon, 2);
        },
        None => {
            assert(rest1 =~= seq![m1, m2]);
            lemma_first_in(rest1, ByteClass::Colon, 2);
        },
    }
}

/// Law: a 24-hour time "HH:MM" or "HH:MM:SS" is that hour, minute and second, with no
/// offset, and with a trailing 'Z' at offset 0; whenever the fields are in range.
pub proof fn lemma_clock_time(h1: u8, h2: u8, m1: u8, m2: u8, sec: Option<(u8, u8)>)
    requires
        is_digit(h1),
        is_digit(h2),
        is_digit(m1),
        is_digit(m2),
        sec matches Some((s1, s2)) ==> is_digit(s1) && is_digit(s2) && two_digits(s1, s2) < 60,
        two_digits(h1, h2) < 24,
        two_digits(m1, m2) < 60,
    ensures
        ({
            let text = match sec {
                Some((s1, s2)) => seq![h1, h2, 58u8, m1, m2, 58u8, s1, s2],
                None => seq![h1, h2, 58u8, m1, m2],
            };
            let ss = match sec {
                Some((s1, s2)) => two_digits(s1, s2),
                None => 0,
            };
            let t = (
                Hour24(two_digits(h1, h2) as u8),
                Minute(two_digits(m1, m2) as u8),
                Second(ss as u8),
            );
            &&& spec_parse_time(text) == Some(
                Ok::<TimeOfDay, ParseDateTimeError>((t.0, t.1, t.2, None)),
            )
            &&& spec_parse_time(text.push(90u8)) == Some(
                Ok::<TimeOfDay, ParseDateTimeError>((t.0, t.1, t.2, Some(0i32))),
            )
        }),
{
    let text = match sec {
        Some((s1, s2)) => seq![h1, h2, 58u8, m1, m2, 58u8, s1, s2],
        None => seq![h1, h2, 58u8, m1, m2],
    };
    let n = text.len() as int;
    lemma_two_digits(h1, h2);
    lemma_two_digits(m1, m2);
    if let Some((s1, s2)) = sec {
        lemma_two_digits(s1, s2);
    }
    lemma_split_clock(h1, h2, m1, m2, sec);
    assert(ws_prefix_len(text) == 0 && ws_suffix_len(text) == 0);
    assert(trim(text) == text);
    let z = text.push(90u8);
    assert(ws_prefix_len(z) == 0 && ws_suffix_len(z) == 0);
    assert(trim(z) == z);
    assert(z.subrange(0, n) =~= text);
    assert(!ends_with_utc(text));
    assert forall|j: int| 0 <= j < n implies !in_class(ByteClass::Sign, #[trigger] text[j]) by {}
    lemma_first_in(text, ByteClass::Sign, n);
    assert(ampm_suffix(text) is None);
}

/// Law: a 12-hour time "HH:MMam" or "HH:MMpm" (either case) is the 24-hour hour `HH mod 12`,
/// plus 12 after noon, whenever `HH` is 1 to 12 and the minute is in range.
pub proof fn lemma_twelve_hour_time(h1: u8, h2: u8, m1: u8, m2: u8, a: u8, m: u8)
    requires
        is_digit(h1),
        is_digit(h2),
        is_digit(m1),
        is_digit(m2),
        1 <= two_digits(h1, h2) <= 12,
        two_digits(m1, m2) < 60,
        a == 97 || a == 65 || a == 112 || a == 80,
        m == 109 || m == 77,
    ensures
        spec_parse_time(seq![h1, h2, 58u8, m1, m2, a, m]) == Some(
            Ok::<TimeOfDay, ParseDateTimeError>(
                (
                    Hour24(
                        (two_digits(h1, h2) % 12 + if a == 112 || a == 80 {
                            12int
                        } else {
                            0
                        }) as u8,
                    ),
                    Minute(two_digits(m1, m2) as u8),
                    Second(0),
                    None,
                ),
            ),
        ),
{
    let text = seq![h1, h2, 58u8, m1, m2, a, m];
    lemma_two_digits(h1, h2);
    lemma_two_digits(m1, m2);
    lemma_split_clock(h1, h2, m1, m2, None);
    assert(ws_prefix_len(text) == 0 && ws_suffix_len(text) == 0);
    assert(trim(text) == text);
    assert(!ends_with_utc(text));
    assert forall|j: int| 0 <= j < 7 implies !in_class(ByteClass::Sign, #[trigger] text[j]) by {}
    lemma_first_in(text, ByteClass::Sign, 7);
    let core = text.subrange(0, 5);
    assert(core =~= seq![h1, h2, 58u8, m1, m2]);
    assert(ws_prefix_len(core) == 0 && ws_suffix_len(core) == 0);
    assert(trim(core) == core);
    assert(clock_part(text) == core);
}

fn lower_byte(c: u8) -> (res: u8)
    ensures
        res == ascii_lower(c),
{
    if 65 <= c && c <= 90 {
        c + 32
    } else {
        c
    }
}

fn time_number_at(b: &[u8], lo: usize, hi: usize) -> (res: Result<u64, ParseDateTimeError>)
    requires
        lo <= hi <= b@.len(),
    ensures
        res == time_number(b@.subrange(lo as int, hi as int)),
{
    match parse_u64_at(b, lo, hi) {
        Some(v) => Ok(v),
        None => Err(ParseDateTimeError::InvalidFormat),
    }
}

/// [`time_from_fields`] over byte ranges of `b`; a missing field has an empty range with
/// its flag false.
fn time_from_fields_at(
    b: &[u8],
    h: (usize, usize),
    m: Option<(usize, usize)>,
    sec: Option<(usize, usize)>,
    ampm: Option<bool>,
    off: Option<i32>,
) -> (res: Result<TimeOfDay, ParseDateTimeError>)
    requires
        h.0 <= h.1 <= b@.len(),
        m matches Some(r) ==> r.0 <= r.1 <= b@.len(),
        sec matches Some(r) ==> r.0 <= r.1 <= b@.len(),
    ensures
        res == time_from_fields(
            b@.subrange(h.0 as int, h.1 as int),
            match m {
                Some(r) => Some(b@.subrange(r.0 as int, r.1 as int)),
                None => None,
            },
            match sec {
                Some(r) => Some(b@.subrange(r.0 as int, r.1 as int)),
                None => None,
            },
            ampm,
            off,
        ),
{
    let h_raw = match time_number_at(b, h.0, h.1) {
        Ok(v) => v,
        Err(e) => return Err(e),
    };
    let mv = match m {
        Some(r) => match time_number_at(b, r.0, r.1) {
            Ok(v) => v,
            Err(e) => return Err(e),
        },
        None => {
            if ampm.is_none() {
                return Err(ParseDateTimeError::InvalidFormat);
            }
            0
        },
    };
    let sv = match sec {
        Some(r) => match time_number_at(b, r.0, r.1) {
            Ok(v) => v,
            Err(e) => return Err(e),
        },
        None => 0,
    };
    let hv = match ampm {
        Some(is_pm) => {
            if h_raw == 0 || h_raw > 12 {
                return Err(ParseDateTimeError::InvalidValue);
            }
            if is_pm {
                if h_raw == 12 {
                    12
                } else {
                    h_raw + 12
                }
            } else if h_raw == 12 {
                0
            } else {
                h_raw
            }
        },
        None => h_raw,
    };
    if !(hv < 24 && mv < 60 && sv < 60) {
        return Err(ParseDateTimeError::InvalidValue);
    }
    Ok((Hour24(hv as u8), Minute(mv as u8), Second(sv as u8), off))
}

/// Finds the "am"/"pm" suffix of `b[lo..hi]`: the bounds of [`clock_part`] and the suffix.
fn ampm_at(b: &[u8], lo: usize, hi: usize) -> (res: (usize, usize, Option<bool>))
    requires
        lo <= hi <= b@.len(),
    ensures
        lo <= res.0 <= res.1 <= hi,
        b@.subrange(res.0 as int, res.1 as int) == clock_part(b@.subrange(lo as int, hi as int)),
        res.2 == ampm_suffix(b@.subrange(lo as int, hi as int)),
{
    let ghost raw = b@.subrange(lo as int, hi as int);
    let k = hi - lo;
    if k < 2 {
        return (lo, hi, None);
    }
    assert(raw[k - 2] == b@[hi - 2]);
    assert(raw[k - 1] == b@[hi - 1]);
    let c1 = lower_byte(b[hi - 2]);
    let c2 = lower_byte(b[hi - 1]);
    let ampm = if c1 == 97 && c2 == 109 {
        Some(false)
    } else if c1 == 112 && c2 == 109 {
        Some(true)
    } else {
        return (lo, hi, None);
    };
    assert(raw.subrange(0, k - 2) =~= b@.subrange(lo as int, hi - 2));
    let (tlo, thi) = trim_bounds(b, lo, hi - 2);
    (tlo, thi, ampm)
}

/// [`time_from_clock`] over `b[lo..hi]`.
fn time_from_clock_at(b: &[u8], tlo: usize, thi: usize, ampm: Option<bool>, off: Option<i32>) -> (res: Result<
    TimeOfDay,
    ParseDateTimeError,
>)
    requires
        tlo <= thi <= b@.len(),
    ensures
        res == time_from_clock(b@.subrange(tlo as int, thi as int), ampm, off),
{
    let ghost tp = b@.subrange(tlo as int, thi as int);
    let c1 = find_class(b, tlo, thi, ByteClass::Colon);
    if c1 >= thi - tlo {
        return time_from_fields_at(b, (tlo, thi), None, None, ampm, off);
    }
    let r1 = tlo + c1 + 1;
    let ghost rest1 = tp.subrange(c1 + 1, tp.len() as int);
    assert(rest1 =~= b@.subrange(r1 as int, thi as int));
    assert(tp.subrange(0, c1 as int) =~= b@.subrange(tlo as int, (tlo + c1) as int));
    let c2 = find_class(b, r1, thi, ByteClass::Colon);
    if c2 >= thi - r1 {
        return time_from_fields_at(b, (tlo, tlo + c1), Some((r1, thi)), None, ampm, off);
    }
    let r2 = r1 + c2 + 1;
    let ghost rest2 = rest1.subrange(c2 + 1, rest1.len() as int);
    assert(rest2 =~= b@.subrange(r2 as int, thi as int));
    assert(rest1.subrange(0, c2 as int) =~= b@.subrange(r1 as int, (r1 + c2) as int));
    let c3 = find_class(b, r2, thi, ByteClass::Colon);
    if c3 < thi - r2 {
        return Err(ParseDateTimeError::InvalidFormat);
    }
    time_from_fields_at(b, (tlo, tlo + c1), Some((r1, r1 + c2)), Some((r2, thi)), ampm, off)
}

/// [`time_from_raw`] over `b[lo..hi]`.
fn time_from_raw_at(b: &[u8], lo: usize, hi: usize, off: Option<i32>) -> (res: Result<
    TimeOfDay,
    ParseDateTimeError,
>)
    requires
        lo <= hi <= b@.len(),
    ensures
        res == time_from_raw(b@.subrange(lo as int, hi as int), off),
{
    let (tlo, thi, ampm) = ampm_at(b, lo, hi);
    time_from_clock_at(b, tlo, thi, ampm, off)
}

/// [`spec_parse_time`] over `b[lo..hi]`.
fn parse_time_at(b: &[u8], lo: usize, hi: usize) -> (res: Option<
    Result<TimeOfDay, ParseDateTimeError>,
>)
    requires
        lo <= hi <= b@.len(),
    ensures
        res == spec_parse_time(b@.subrange(lo as int, hi as int)),
{
    let (lo, hi) = trim_bounds(b, lo, hi);
    let ghost s = b@.subrange(lo as int, hi as int);
    let n = hi - lo;
    if n > 0 && b[hi - 1] == 90 {
        assert(s[n - 1] == b@[hi - 1]);
        assert(s.subrange(0, n - 1) =~= b@.subrange(lo as int, hi - 1));
        return Some(time_from_raw_at(b, lo, hi - 1, Some(0)));
    }
    proof {
        if n > 0 {
            assert(s[n - 1] == b@[hi - 1]);
        }
    }
    if n >= 3 && lower_byte(b[hi - 3]) == 117 && lower_byte(b[hi - 2]) == 116 && lower_byte(
        b[hi - 1],
    ) == 99 {
        assert(s[n - 3] == b@[hi - 3] && s[n - 2] == b@[hi - 2]);
        assert(s.subrange(0, n - 3) =~= b@.subrange(lo as int, hi - 3));
        let (rlo, rhi) = trim_bounds(b, lo, hi - 3);
        return Some(time_from_raw_at(b, rlo, rhi, Some(0)));
    }
    proof {
        if n >= 3 {
            assert(s[n - 3] == b@[hi - 3] && s[n - 2] == b@[hi - 2]);
        }
    }
    let pos = find_class(b, lo, hi, ByteClass::Sign);
    if pos < n {
        assert(s.subrange(pos as int, n as int) =~= b@.subrange((lo + pos) as int, hi as int));
        assert(s.subrange(0, pos as int) =~= b@.subrange(lo as int, (lo + pos) as int));
        match parse_offset_at(b, lo + pos, hi) {
            None => None,
            Some(None) => Some(Err(ParseDateTimeError::InvalidFormat)),
            Some(Some(o)) => {
                let (rlo, rhi) = trim_bounds(b, lo, lo + pos);
                Some(time_from_raw_at(b, rlo, rhi, Some(o)))
            },
        }
    } else {
        Some(time_from_raw_at(b, lo, hi, None))
    }
}

/// Parses a time of day; see [`spec_parse_time`]. `None` where the computation has no
/// result: a four-digit offset split inside a character.
pub fn checked_parse_time(s: &str) -> (res: Option<Result<TimeOfDay, ParseDateTimeError>>)
    ensures
        res == spec_parse_time(s.spec_bytes()),
{
    let b = s.as_bytes();
    assert(b@.subrange(0, b@.len() as int) =~= b@);
    parse_time_at(b, 0, b.len())
}

/// Parses a time of day; see [`spec_parse_time`].
pub fn parse_time(s: &str) -> (res: Result<TimeOfDay, ParseDateTimeError>)
    requires
        spec_parse_time(s.spec_bytes()) is Some,
    ensures
        Some(res) == spec_parse_time(s.spec_bytes()),
{
    match checked_parse_time(s) {
        Some(r) => r,
        None => Err(ParseDateTimeError::InvalidFormat),
    }
}


/// The UTC offset that places a time of day: the one written with it, else the local one.
pub open spec fn used_offset(off: Option<i32>, local: i32) -> int {
    match off {
        Some(o) => o as int,
        None => local as int,
    }
}

/// `dt` with its time of day replaced by `t`'s.
pub open spec fn at_time(dt: DateTime, t: TimeOfDay) -> DateTime {
    DateTime { hour: t.0, minute: t.1, second: t.2, ..dt }
}

/// Seconds since the epoch of the wall-clock reading `dt` at `used` seconds east of UTC.
/// `None` where the computation has no result: a day 0, which the date arithmetic cannot
/// take, or an instant before the epoch or beyond `i64::MAX` seconds, which no system
/// time holds.
pub open spec fn instant_of(dt: DateTime, used: int) -> Option<u64> {
    if dt.day.0 == 0 {
        None
    } else {
        let t = spec_to_unix_timestamp(dt) - used;
        if 0 <= t <= i64::MAX {
            Some(t as u64)
        } else {
            None
        }
    }
}

/// The wall clock `days_ahead` days after `now` at `used` seconds east of UTC, as a count
/// of seconds: the sum `now + used` is taken as an unsigned 64-bit count (wrapping below
/// zero); `None` where a step overflows.
pub open spec fn shifted_clock(now: int, used: int, days_ahead: int) -> Option<u64> {
    let x = now + used;
    if x > i64::MAX {
        None
    } else {
        let w = if x >= 0 {
            x
        } else {
            x + 0x1_0000_0000_0000_0000
        };
        let y = w + 86400 * days_ahead;
        if y > u64::MAX {
            None
        } else {
            Some(y as u64)
        }
    }
}

/// The instant of time `t` on the date that the wall clock `clock` shows.
pub open spec fn instant_on(clock: Option<u64>, t: TimeOfDay, local: i32) -> Option<u64> {
    match clock {
        None => None,
        Some(c) => instant_of(at_time(spec_from_unix_timestamp(c), t), used_offset(t.3, local)),
    }
}

/// Midnight, with no offset written.
pub open spec fn midnight() -> TimeOfDay {
    (Hour24(0), Minute(0), Second(0), None)
}

/// The bytes of "tomorrow".
pub open spec fn tomorrow_word() -> Seq<u8> {
    seq![116u8, 111u8, 109u8, 111u8, 114u8, 114u8, 111u8, 119u8]
}

/// Wraps a computed instant as a successful parse.
pub open spec fn accepted(v: Option<u64>) -> Option<Result<u64, ParseDateTimeError>> {
    match v {
        None => None,
        Some(t) => Some(Ok(t)),
    }
}

/// "@SECONDS": that instant, which must lie after `now`.
pub open spec fn unix_deadline(r: Seq<u8>, now: int) -> Option<Result<u64, ParseDateTimeError>> {
    match spec_parse_u64(r) {
        None => Some(Err(ParseDateTimeError::InvalidFormat)),
        Some(ts) => if ts > i64::MAX {
            None
        } else if ts <= now {
            Some(Err(ParseDateTimeError::PastTime))
        } else {
            Some(Ok(ts))
        },
    }
}

/// "tomorrow TIME": that time on the next day at the time's offset.
pub open spec fn tomorrow_deadline(r: Seq<u8>, now: int, local: i32) -> Option<
    Result<u64, ParseDateTimeError>,
> {
    match spec_parse_time(r) {
        None => None,
        Some(Err(e)) => Some(Err(e)),
        Some(Ok(t)) => accepted(instant_on(shifted_clock(now, used_offset(t.3, local), 1), t, local)),
    }
}

/// A time only: that time today at its offset, or tomorrow when it is not after `now`.
/// Any error in the time is reported as a format error.
pub open spec fn today_deadline(s: Seq<u8>, now: int, local: i32) -> Option<
    Result<u64, ParseDateTimeError>,
> {
    match spec_parse_time(s) {
        None => None,
        Some(Err(_)) => Some(Err(ParseDateTimeError::InvalidFormat)),
        Some(Ok(t)) => match instant_on(shifted_clock(now, used_offset(t.3, local), 0), t, local) {
            None => None,
            Some(v) => if v > now {
                Some(Ok(v))
            } else if v + 86400 > i64::MAX {
                None
            } else {
                Some(Ok((v + 86400) as u64))
            },
        },
    }
}

/// "YYYY-MM-DD[ TIME]": that date at that time (midnight if none), which must exist and
/// lie after `now`. The byte after the date is not read; year, month and day are taken as
/// `i32`, `u8` and `u8` (truncated).
pub open spec fn date_deadline(s: Seq<u8>, now: int, local: i32) -> Option<
    Result<u64, ParseDateTimeError>,
> {
    let n = s.len() as int;
    match (spec_parse_u64(s.subrange(0, 4)), spec_parse_u64(s.subrange(5, 7))) {
        (Some(y), Some(mo)) => if !char_boundary(s, 10) {
            None
        } else {
            match spec_parse_u64(s.subrange(8, 10)) {
                None => Some(Err(ParseDateTimeError::InvalidFormat)),
                Some(d) => {
                    let tod = if n > 11 {
                        if char_boundary(s, 11) {
                            spec_parse_time(s.subrange(11, n))
                        } else {
                            None
                        }
                    } else {
                        Some(Ok(midnight()))
                    };
                    match tod {
                        None => None,
                        Some(Err(e)) => Some(Err(e)),
                        Some(Ok(t)) => {
                            let year = Year(y as i32);
                            let month = mo as u8;
                            let day = d as u8;
                            if !(1 <= month <= 12 && 1 <= day <= month_len(year.0 as int, month as int)) {
                                Some(Err(ParseDateTimeError::InvalidValue))
                            } else {
                                let dt = at_time(
                                    DateTime {
                                        year,
                                        month: Month(month),
                                        day: Day(day),
                                        hour: Hour24(0),
                                        minute: Minute(0),
                                        second: Second(0),
                                    },
                                    t,
                                );
                                match instant_of(dt, used_offset(t.3, local)) {
                                    None => None,
                                    Some(v) => if v <= now {
                                        Some(Err(ParseDateTimeError::PastTime))
                                    } else {
                                        Some(Ok(v))
                                    },
                                }
                            }
                        },
                    }
                },
            }
        },
        _ => Some(Err(ParseDateTimeError::InvalidFormat)),
    }
}

/// The deadline written in the UTF-8 text `b`, in seconds since the epoch, given the
/// current time `now` (whole seconds since the epoch, rounded down) and the local UTC
/// offset `local`. `None` marks input on which the computation has no result (see
/// [`spec_parse_time`], [`instant_of`] and [`shifted_clock`]).
pub open spec fn spec_parse_datetime(b: Seq<u8>, now: int, local: i32) -> Option<
    Result<u64, ParseDateTimeError>,
> {
    let s = trim(b);
    let n = s.len() as int;
    if n == 0 {
        Some(Err(ParseDateTimeError::InvalidFormat))
    } else if s[0] == 64 {
        unix_deadline(s.subrange(1, n), now)
    } else if now < 0 {
        Some(Err(ParseDateTimeError::InvalidValue))
    } else if s == tomorrow_word() {
        accepted(instant_on(shifted_clock(now, local as int, 1), midnight(), local))
    } else if n >= 9 && s.subrange(0, 9) == tomorrow_word().push(32u8) {
        tomorrow_deadline(s.subrange(9, n), now, local)
    } else if n >= 10 && s[4] == 45 && s[7] == 45 {
        date_deadline(s, now, local)
    } else {
        today_deadline(s, now, local)
    }
}

/// [`instant_of`] for an offset within the `i32` range.
fn instant_at(dt: DateTime, used: i64) -> (res: Option<u64>)
    requires
        i32::MIN <= used <= i32::MAX,
    ensures
        res == instant_of(dt, used as int),
{
    if dt.day.0 == 0 {
        return None;
    }
    let t = to_unix_timestamp(dt);
    proof {
        lemma_unix_timestamp_range(dt);
    }
    let v = t as i64 - used;
    if v < 0 {
        None
    } else {
        Some(v as u64)
    }
}

/// [`shifted_clock`] for a current time from the epoch on.
fn shifted_clock_at(now: i64, used: i64, days_ahead: u64) -> (res: Option<u64>)
    requires
        now >= 0,
        i32::MIN <= used <= i32::MAX,
        days_ahead <= 1,
    ensures
        res == shifted_clock(now as int, used as int, days_ahead as int),
{
    let x = match now.checked_add(used) {
        Some(x) => x,
        None => return None,
    };
    let w: u64 = if x >= 0 {
        x as u64
    } else {
        ((x + i64::MAX) + 1) as u64 + 0x8000_0000_0000_0000u64
    };
    w.checked_add(86400 * days_ahead)
}

/// [`instant_on`] over the clock computed by [`shifted_clock_at`].
fn instant_on_at(clock: Option<u64>, t: TimeOfDay, local: i32) -> (res: Option<u64>)
    ensures
        res == instant_on(clock, t, local),
{
    match clock {
        None => None,
        Some(c) => {
            let dt = from_unix_timestamp(c);
            let used: i64 = match t.3 {
                Some(o) => o as i64,
                None => local as i64,
            };
            instant_at(DateTime { hour: t.0, minute: t.1, second: t.2, ..dt }, used)
        },
    }
}

/// [`unix_deadline`] over `b[lo..hi]`.
fn unix_deadline_at(b: &[u8], lo: usize, hi: usize, now: i64) -> (res: Option<
    Result<u64, ParseDateTimeError>,
>)
    requires
        lo <= hi <= b@.len(),
    ensures
        res == unix_deadline(b@.subrange(lo as int, hi as int), now as int),
{
    match parse_u64_at(b, lo, hi) {
        None => Some(Err(ParseDateTimeError::InvalidFormat)),
        Some(ts) => if ts > 0x7fff_ffff_ffff_ffffu64 {
            None
        } else if ts as i64 <= now {
            Some(Err(ParseDateTimeError::PastTime))
        } else {
            Some(Ok(ts))
        },
    }
}

/// The offset that places `t`, as an `i64`.
fn used_offset_of(t: &TimeOfDay, local: i32) -> (res: i64)
    ensures
        res == used_offset(t.3, local),
        i32::MIN <= res <= i32::MAX,
{
    match t.3 {
        Some(o) => o as i64,
        None => local as i64,
    }
}

/// [`tomorrow_deadline`] over `b[lo..hi]`.
fn tomorrow_deadline_at(b: &[u8], lo: usize, hi: usize, now: i64, local: i32) -> (res: Option<
    Result<u64, ParseDateTimeError>,
>)
    requires
        lo <= hi <= b@.len(),
        now >= 0,
    ensures
        res == tomorrow_deadline(b@.subrange(lo as int, hi as int), now as int, local),
{
    match parse_time_at(b, lo, hi) {
        None => None,
        Some(Err(e)) => Some(Err(e)),
        Some(Ok(t)) => {
            let used = used_offset_of(&t, local);
            match instant_on_at(shifted_clock_at(now, used, 1), t, local) {
                None => None,
                Some(v) => Some(Ok(v)),
            }
        },
    }
}

/// [`today_deadline`] over `b[lo..hi]`.
fn today_deadline_at(b: &[u8], lo: usize, hi: usize, now: i64, local: i32) -> (res: Option<
    Result<u64, ParseDateTimeError>,
>)
    requires
        lo <= hi <= b@.len(),
        now >= 0,
    ensures
        res == today_deadline(b@.subrange(lo as int, hi as int), now as int, local),
{
    match parse_time_at(b, lo, hi) {
        None => None,
        Some(Err(_)) => Some(Err(ParseDateTimeError::InvalidFormat)),
        Some(Ok(t)) => {
            let used = used_offset_of(&t, local);
            match instant_on_at(shifted_clock_at(now, used, 0), t, local) {
                None => None,
                Some(v) => if v > now as u64 {
                    Some(Ok(v))
                } else if v > 0x7fff_ffff_ffff_ffffu64 - 86400 {
                    None
                } else {
                    Some(Ok(v + 86400))
                },
            }
        },
    }
}

/// [`date_deadline`] over `b[lo..hi]`.
fn date_deadline_at(b: &[u8], lo: usize, hi: usize, now: i64, local: i32) -> (res: Option<
    Result<u64, ParseDateTimeError>,
>)
    requires
        lo + 10 <= hi <= b@.len(),
        now >= 0,
    ensures
        res == date_deadline(b@.subrange(lo as int, hi as int), now as int, local),
{
    let ghost s = b@.subrange(lo as int, hi as int);
    let n = hi - lo;
    assert(s.subrange(0, 4) =~= b@.subrange(lo as int, lo + 4));
    assert(s.subrange(5, 7) =~= b@.subrange(lo + 5, lo + 7));
    assert(s.subrange(8, 10) =~= b@.subrange(lo + 8, lo + 10));
    let y = match parse_u64_at(b, lo, lo + 4) {
        Some(v) => v,
        None => return Some(Err(ParseDateTimeError::InvalidFormat)),
    };
    let mo = match parse_u64_at(b, lo + 5, lo + 7) {
        Some(v) => v,
        None => return Some(Err(ParseDateTimeError::InvalidFormat)),
    };
    if n > 10 {
        assert(s[10] == b@[lo + 10]);
        let c = b[lo + 10];
        if !(c < 0x80 || c >= 0xC0) {
            return None;
        }
    }
    let d = match parse_u64_at(b, lo + 8, lo + 10) {
        Some(v) => v,
        None => return Some(Err(ParseDateTimeError::InvalidFormat)),
    };
    let t: TimeOfDay = if n > 11 {
        assert(s[11] == b@[lo + 11]);
        let c = b[lo + 11];
        if !(c < 0x80 || c >= 0xC0) {
            return None;
        }
        assert(s.subrange(11, n as int) =~= b@.subrange(lo + 11, hi as int));
        match parse_time_at(b, lo + 11, hi) {
            None => return None,
            Some(Err(e)) => return Some(Err(e)),
            Some(Ok(t)) => t,
        }
    } else {
        (Hour24(0), Minute(0), Second(0), None)
    };
    let year = Year(y as i32);
    let month = match Month::new(mo as u8) {
        Some(m) => m,
        None => return Some(Err(ParseDateTimeError::InvalidValue)),
    };
    let day = match Day::new(d as u8, year, month) {
        Some(x) => x,
        None => return Some(Err(ParseDateTimeError::InvalidValue)),
    };
    let used = used_offset_of(&t, local);
    let dt = DateTime { year, month, day, hour: t.0, minute: t.1, second: t.2 };
    match instant_at(dt, used) {
        None => None,
        Some(v) => if v <= now as u64 {
            Some(Err(ParseDateTimeError::PastTime))
        } else {
            Some(Ok(v))
        },
    }
}

/// Whether `b[lo..hi]` is "tomorrow".
fn is_tomorrow_at(b: &[u8], lo: usize, hi: usize) -> (res: bool)
    requires
        lo <= hi <= b@.len(),
    ensures
        res == (b@.subrange(lo as int, hi as int) == tomorrow_word()),
{
    let ghost s = b@.subrange(lo as int, hi as int);
    if hi - lo != 8 {
        assert(s.len() != tomorrow_word().len());
        return false;
    }
    let res = b[lo] == 116 && b[lo + 1] == 111 && b[lo + 2] == 109 && b[lo + 3] == 111 && b[lo
        + 4] == 114 && b[lo + 5] == 114 && b[lo + 6] == 111 && b[lo + 7] == 119;
    proof {
        if res {
            assert(s =~= tomorrow_word());
        } else {
            if s == tomorrow_word() {
                assert(s[0] == b@[lo as int] && s[1] == b@[lo + 1] && s[2] == b@[lo + 2]);
                assert(s[3] == b@[lo + 3] && s[4] == b@[lo + 4] && s[5] == b@[lo + 5]);
                assert(s[6] == b@[lo + 6] && s[7] == b@[lo + 7]);
            }
        }
    }
    res
}

/// Whether `b[lo..hi]` starts with "tomorrow ".
fn has_tomorrow_prefix(b: &[u8], lo: usize, hi: usize) -> (res: bool)
    requires
        lo <= hi <= b@.len(),
    ensures
        res == (hi - lo >= 9 && b@.subrange(lo as int, hi as int).subrange(0, 9)
            == tomorrow_word().push(32u8)),
{
    let ghost t = b@.subrange(lo as int, hi as int);
    if hi - lo < 9 {
        return false;
    }
    let w = is_tomorrow_at(b, lo, lo + 8);
    assert(t.subrange(0, 8) =~= b@.subrange(lo as int, lo + 8));
    assert(t[8] == b@[lo + 8]);
    proof {
        if t.subrange(0, 9) == tomorrow_word().push(32u8) {
            assert(t.subrange(0, 8) =~= tomorrow_word());
            assert(t.subrange(0, 9)[8] == t[8]);
        }
        if w && b@[lo + 8] == 32 {
            assert(t.subrange(0, 9) =~= tomorrow_word().push(32u8));
        }
    }
    w && b[lo + 8] == 32
}

/// Parses a deadline; see [`spec_parse_datetime`]. `None` where the computation has no
/// result.
pub fn checked_parse_datetime(s: &str, now: i64, local_offset: i32) -> (res: Option<
    Result<u64, ParseDateTimeError>,
>)
    ensures
        res == spec_parse_datetime(s.spec_bytes(), now as int, local_offset),
{
    let b = s.as_bytes();
    assert(b@.subrange(0, b@.len() as int) =~= b@);
    let (lo, hi) = trim_bounds(b, 0, b.len());
    let ghost t = b@.subrange(lo as int, hi as int);
    let n = hi - lo;
    if n == 0 {
        return Some(Err(ParseDateTimeError::InvalidFormat));
    }
    assert(t[0] == b@[lo as int]);
    if b[lo] == 64 {
        assert(t.subrange(1, n as int) =~= b@.subrange(lo + 1, hi as int));
        return unix_deadline_at(b, lo + 1, hi, now);
    }
    if now < 0 {
        return Some(Err(ParseDateTimeError::InvalidValue));
    }
    if is_tomorrow_at(b, lo, hi) {
        return match instant_on_at(
            shifted_clock_at(now, local_offset as i64, 1),
            (Hour24(0), Minute(0), Second(0), None),
            local_offset,
        ) {
            None => None,
            Some(v) => Some(Ok(v)),
        };
    }
    if has_tomorrow_prefix(b, lo, hi) {
        assert(t.subrange(9, n as int) =~= b@.subrange(lo + 9, hi as int));
        return tomorrow_deadline_at(b, lo + 9, hi, now, local_offset);
    }
    if n >= 10 && b[lo + 4] == 45 && b[lo + 7] == 45 {
        assert(t[4] == b@[lo + 4] && t[7] == b@[lo + 7]);
        return date_deadline_at(b, lo, hi, now, local_offset);
    }
    proof {
        if n >= 10 {
            assert(t[4] == b@[lo + 4] && t[7] == b@[lo + 7]);
        }
    }
    today_deadline_at(b, lo, hi, now, local_offset)
}

/// Parses a deadline such as "@1700000000", "23:59", "6pm", "06:00Z", "tomorrow 8am" or
/// "2026-12-25 10:00:00+02:00" into seconds since the epoch; see [`spec_parse_datetime`].
/// `now` is the current time in whole seconds since the epoch (rounded down) and
/// `local_offset` the local UTC offset in seconds east.
pub fn parse_datetime(s: &str, now: i64, local_offset: i32) -> (res: Result<u64, ParseDateTimeError>)
    requires
        spec_parse_datetime(s.spec_bytes(), now as int, local_offset) is Some,
    ensures
        Some(res) == spec_parse_datetime(s.spec_bytes(), now as int, local_offset),
{
    match checked_parse_datetime(s, now, local_offset) {
        Some(r) => r,
        None => Err(ParseDateTimeError::InvalidFormat),
    }
}

/// Seconds since midnight of time of day `t`.
pub open spec fn seconds_of_day(t: TimeOfDay) -> int {
    t.0.0 * 3600 + t.1.0 * 60 + t.2.0
}

/// A parsed time of day is a valid one.
pub proof fn lemma_parsed_time_valid(s: Seq<u8>)
    ensures
        spec_parse_time(s) matches Some(Ok(t)) ==> t.0.0 < 24 && t.1.0 < 60 && t.2.0 < 60,
{
}

/// The instant of time `t` on the date of wall clock `c` (at `used` seconds east of UTC)
/// is `t` on that date: the clock's last midnight plus `t`.
proof fn lemma_instant_on_clock(c: u64, t: TimeOfDay, local: i32)
    requires
        c / 86400 <= i32::MAX,
        t.0.0 < 24 && t.1.0 < 60 && t.2.0 < 60,
    ensures
        instant_on(Some(c), t, local) == ({
            let w = (c / 86400) * 86400 + seconds_of_day(t) - used_offset(t.3, local);
            if 0 <= w <= i64::MAX {
                Some(w as u64)
            } else {
                None
            }
        }),
{
    let dt = spec_from_unix_timestamp(c);
    lemma_day_number_of_timestamp(c);
    assert(spec_day_number(at_time(dt, t)) == spec_day_number(dt));
}

/// `k` whole days plus a time of day leave that time of day modulo a day.
proof fn lemma_day_remainder(k: int, tod: int)
    requires
        0 <= tod < 86400,
    ensures
        (k * 86400 + tod) % 86400 == tod,
        (k * 86400 + tod) / 86400 == k,
{
    vstd::arithmetic::div_mod::lemma_fundamental_div_mod_converse(k * 86400 + tod, 86400, k, tod);
}

/// Law: a time-only deadline (the last form of [`spec_parse_datetime`]) lies after `now`
/// and at most one day after it, a time that has passed today being taken tomorrow, and
/// shows that time on the clock at its offset; for every wall clock `now + offset` from
/// the epoch to the last day that the date arithmetic counts.
pub proof fn lemma_time_only_deadline(s: Seq<u8>, now: int, local: i32, v: u64)
    requires
        spec_parse_time(s) matches Some(Ok(t)) && 0 <= now + used_offset(t.3, local) && (now
            + used_offset(t.3, local)) / 86400 <= i32::MAX,
        today_deadline(s, now, local) == Some(Ok::<u64, ParseDateTimeError>(v)),
    ensures
        now < v <= now + 86400,
        spec_parse_time(s) matches Some(Ok(t)) && (v + used_offset(t.3, local)) % 86400
            == seconds_of_day(t),
        spec_parse_time(s) matches Some(Ok(t)) && (v + used_offset(t.3, local)) / 86400 == (now
            + used_offset(t.3, local)) / 86400 + if ((now + used_offset(t.3, local)) / 86400)
            * 86400 + seconds_of_day(t) - used_offset(t.3, local) > now {
            0int
        } else {
            1int
        },
{
    let t = spec_parse_time(s)->Some_0->Ok_0;
    let used = used_offset(t.3, local);
    let c = (now + used) as u64;
    lemma_parsed_time_valid(s);
    assert(shifted_clock(now, used, 0) == Some(c));
    let v0 = instant_on(Some(c), t, local)->Some_0;
    lemma_instant_on_clock(c, t, local);
    vstd::arithmetic::div_mod::lemma_fundamental_div_mod(c as int, 86400);
    if v0 > now {
        assert(v == v0);
        lemma_day_remainder((c / 86400) as int, seconds_of_day(t));
    } else {
        assert(v == v0 + 86400);
        lemma_day_remainder(c / 86400 + 1, seconds_of_day(t));
    }
}

/// A number written with `k` digits is below `10^k`.
proof fn lemma_digits_below(s: Seq<u8>)
    requires
        all_digits(s),
    ensures
        digits_value(s) < pow10(s.len()),
    decreases s.len(),
{
    if s.len() > 0 {
        let p = s.drop_last();
        assert forall|k: int| 0 <= k < p.len() implies is_digit(#[trigger] p[k]) by {
            assert(p[k] == s[k]);
        }
        lemma_digits_below(p);
        assert(is_digit(s[s.len() - 1]));
        assert(pow10(s.len()) == 10 * pow10(p.len()));
    }
}

/// The numbers of a date: four digits below 10000, two digits below 100.
proof fn lemma_date_numbers(s: Seq<u8>)
    requires
        s.len() <= 4,
        spec_parse_u64(s) is Some,
    ensures
        spec_parse_u64(s)->Some_0 < pow10(s.len()),
        pow10(2) == 100,
        pow10(4) == 10000,
{
    lemma_digits_below(s);
    reveal_with_fuel(pow10, 5);
}

/// Law: a dated deadline shows the written date and written time on the clock at the
/// time's offset: it is the date's day count since 1970-01-01 in seconds plus the time of
/// day, less the offset (moments before 1970 counting as 0); the date exists and the
/// deadline lies after `now`.
pub proof fn lemma_date_deadline(
    s: Seq<u8>,
    now: int,
    local: i32,
    v: u64,
    y: u64,
    mo: u64,
    d: u64,
    t: TimeOfDay,
)
    requires
        s.len() >= 10,
        spec_parse_u64(s.subrange(0, 4)) == Some(y),
        spec_parse_u64(s.subrange(5, 7)) == Some(mo),
        spec_parse_u64(s.subrange(8, 10)) == Some(d),
        (s.len() > 11 && spec_parse_time(s.subrange(11, s.len() as int)) == Some(
            Ok::<TimeOfDay, ParseDateTimeError>(t),
        )) || (s.len() <= 11 && t == (Hour24(0), Minute(0), Second(0), None::<i32>)),
        date_deadline(s, now, local) == Some(Ok::<u64, ParseDateTimeError>(v)),
    ensures
        1 <= mo <= 12,
        1 <= d <= month_len(y as i32 as int, mo as int),
        now < v,
        v + match t.3 {
            Some(o) => o as int,
            None => local as int,
        } == ({
            let x = spec_day_number(
                DateTime {
                    year: Year(y as i32),
                    month: Month(mo as u8),
                    day: Day(d as u8),
                    hour: Hour24(0),
                    minute: Minute(0),
                    second: Second(0),
                },
            ) * 86400 + t.0.0 * 3600 + t.1.0 * 60 + t.2.0;
            if x < 0 {
                0
            } else {
                x
            }
        }),
{
    lemma_date_numbers(s.subrange(0, 4));
    lemma_date_numbers(s.subrange(5, 7));
    lemma_date_numbers(s.subrange(8, 10));
}

/// Law: "tomorrow TIME" lies after `now` and less than two days after it, and shows that
/// time on the clock at its offset; for every wall clock `now + offset` from the epoch on
/// whose next day the date arithmetic counts.
pub proof fn lemma_tomorrow_deadline(s: Seq<u8>, now: int, local: i32, v: u64)
    requires
        spec_parse_time(s) matches Some(Ok(t)) && 0 <= now + used_offset(t.3, local) && (now
            + used_offset(t.3, local) + 86400) / 86400 <= i32::MAX,
        tomorrow_deadline(s, now, local) == Some(Ok::<u64, ParseDateTimeError>(v)),
    ensures
        now < v < now + 2 * 86400,
        spec_parse_time(s) matches Some(Ok(t)) && (v + used_offset(t.3, local)) % 86400
            == seconds_of_day(t),
        spec_parse_time(s) matches Some(Ok(t)) && (v + used_offset(t.3, local)) / 86400 == (now
            + used_offset(t.3, local)) / 86400 + 1,
{
    let t = spec_parse_time(s)->Some_0->Ok_0;
    let used = used_offset(t.3, local);
    let c = (now + used + 86400) as u64;
    lemma_parsed_time_valid(s);
    assert(shifted_clock(now, used, 1) == Some(c));
    lemma_instant_on_clock(c, t, local);
    vstd::arithmetic::div_mod::lemma_fundamental_div_mod(c as int, 86400);
    lemma_day_remainder((c / 86400) as int, seconds_of_day(t));
}

/// Law: "tomorrow" is the next local midnight: after `now`, at most one day after it, and
/// a whole number of days after the epoch on the local clock; for every local wall clock
/// from the epoch on whose next day the date arithmetic counts.
pub proof fn lemma_tomorrow_midnight(b: Seq<u8>, now: int, local: i32, v: u64)
    requires
        trim(b) == tomorrow_word(),
        0 <= now + local,
        (now + local + 86400) / 86400 <= i32::MAX,
        spec_parse_datetime(b, now, local) == Some(Ok::<u64, ParseDateTimeError>(v)),
    ensures
        now < v <= now + 86400,
        (v + local) % 86400 == 0,
        (v + local) / 86400 == (now + local) / 86400 + 1,
{
    let c = (now + local + 86400) as u64;
    assert(trim(b)[0] == 116);
    assert(shifted_clock(now, local as int, 1) == Some(c));
    lemma_instant_on_clock(c, midnight(), local);
    vstd::arithmetic::div_mod::lemma_fundamental_div_mod(c as int, 86400);
    lemma_day_remainder((c / 86400) as int, 0);
}

/// Law: every valid time-only text names a deadline, whenever `now` is at least a day
/// after the epoch, a day after `now` still fits in `i64` seconds, and the wall clock
/// `now + offset` lies between the epoch and the last day that the date arithmetic counts.
pub proof fn lemma_time_only_deadline_exists(s: Seq<u8>, now: int, local: i32)
    requires
        spec_parse_time(s) matches Some(Ok(t)) && 0 <= now + used_offset(t.3, local) && (now
            + used_offset(t.3, local)) / 86400 <= i32::MAX,
        86400 <= now,
        now + 86400 <= i64::MAX,
    ensures
        today_deadline(s, now, local) matches Some(Ok(_)),
{
    let t = spec_parse_time(s)->Some_0->Ok_0;
    let used = used_offset(t.3, local);
    let c = (now + used) as u64;
    lemma_parsed_time_valid(s);
    assert(shifted_clock(now, used, 0) == Some(c));
    lemma_instant_on_clock(c, t, local);
    vstd::arithmetic::div_mod::lemma_fundamental_div_mod(c as int, 86400);
}

/// Law: "tomorrow" followed by any valid time names a deadline, whenever `now` is from the
/// epoch on, two days after `now` still fit in `i64` seconds, and the wall clock
/// `now + offset` lies from the epoch on with its next day counted by the date arithmetic.
pub proof fn lemma_tomorrow_deadline_exists(s: Seq<u8>, now: int, local: i32)
    requires
        spec_parse_time(s) matches Some(Ok(t)) && 0 <= now + used_offset(t.3, local) && (now
            + used_offset(t.3, local) + 86400) / 86400 <= i32::MAX,
        0 <= now,
        now + 2 * 86400 <= i64::MAX,
    ensures
        tomorrow_deadline(s, now, local) matches Some(Ok(_)),
{
    let t = spec_parse_time(s)->Some_0->Ok_0;
    let used = used_offset(t.3, local);
    let c = (now + used + 86400) as u64;
    lemma_parsed_time_valid(s);
    assert(shifted_clock(now, used, 1) == Some(c));
    lemma_instant_on_clock(c, t, local);
    vstd::arithmetic::div_mod::lemma_fundamental_div_mod(c as int, 86400);
}

/// Law: "tomorrow" alone always names a deadline, whenever `now` is from the epoch on, a
/// day after `now` still fits in `i64` seconds, and the local wall clock lies from the
/// epoch on with its next day counted by the date arithmetic.
pub proof fn lemma_tomorrow_midnight_exists(b: Seq<u8>, now: int, local: i32)
    requires
        trim(b) == tomorrow_word(),
        0 <= now,
        0 <= now + local,
        (now + local + 86400) / 86400 <= i32::MAX,
        now + 86400 <= i64::MAX,
    ensures
        spec_parse_datetime(b, now, local) matches Some(Ok(_)),
{
    let c = (now + local + 86400) as u64;
    assert(trim(b)[0] == 116);
    assert(shifted_clock(now, local as int, 1) == Some(c));
    lemma_instant_on_clock(c, midnight(), local);
    vstd::arithmetic::div_mod::lemma_fundamental_div_mod(c as int, 86400);
}

/// Law: a time of day written with 'Z', "UTC" or an offset names the same deadline
/// whatever the local offset, both alone and after "tomorrow ".
pub proof fn lemma_written_offset_ignores_local(s: Seq<u8>, now: int, l1: i32, l2: i32)
    requires
        spec_parse_time(s) matches Some(Ok(t)) && t.3 is Some,
    ensures
        today_deadline(s, now, l1) == today_deadline(s, now, l2),
        tomorrow_deadline(s, now, l1) == tomorrow_deadline(s, now, l2),
{
}

/// Law: a date with a time of day written with 'Z', "UTC" or an offset names the same
/// deadline whatever the local offset.
pub proof fn lemma_dated_offset_ignores_local(s: Seq<u8>, now: int, l1: i32, l2: i32)
    requires
        s.len() > 11,
        char_boundary(s, 11),
        spec_parse_time(s.subrange(11, s.len() as int)) matches Some(Ok(t)) && t.3 is Some,
    ensures
        date_deadline(s, now, l1) == date_deadline(s, now, l2),
{
}

} // verus!
