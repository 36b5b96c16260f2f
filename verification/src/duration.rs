//! Whole-second durations and their human-readable form.
use vstd::prelude::*;
use vstd::string::*;

verus! {

/// A number of seconds.
#[derive(Debug, Clone, Copy, PartialEq, Eq, PartialOrd, Ord, Structural)]
pub struct Seconds(pub u64);

/// A number of minutes.
#[derive(Debug, Clone, Copy, PartialEq, Eq, PartialOrd, Ord, Structural)]
pub struct Minutes(pub u64);

/// A number of hours.
#[derive(Debug, Clone, Copy, PartialEq, Eq, PartialOrd, Ord, Structural)]
pub struct Hours(pub u64);

/// A number of days.
#[derive(Debug, Clone, Copy, PartialEq, Eq, PartialOrd, Ord, Structural)]
pub struct Days(pub u64);

/// How often the remaining time is checked while sleeping.
#[derive(Debug, Clone, Copy, PartialEq, Eq, Structural)]
pub struct PollInterval(pub Seconds);

impl Default for PollInterval {
    /// One second.
    fn default() -> (res: Self)
        ensures
            res == PollInterval(Seconds(1)),
    {
        PollInterval(Seconds(1))
    }
}

/// The ASCII code of decimal digit `d`.
pub open spec fn digit_byte(d: int) -> u8 {
    (48 + d) as u8
}

/// The decimal representation of `n`, most significant digit first, without leading zeros
/// ("0" for zero).
pub open spec fn decimal_bytes(n: nat) -> Seq<u8>
    decreases n,
{
    if n < 10 {
        seq![digit_byte(n as int)]
    } else {
        decimal_bytes(n / 10).push(digit_byte((n % 10) as int))
    }
}

/// `count` followed by `unit`, or nothing when `count` is zero.
pub open spec fn human_part(count: nat, unit: u8) -> Seq<u8> {
    if count > 0 {
        decimal_bytes(count).push(unit)
    } else {
        Seq::empty()
    }
}

/// The human-readable form of `n` seconds: days, hours, minutes and seconds, each written
/// only when it is not zero ("1d1h1m1s", "1m5s"), and "0s" for zero.
pub open spec fn human_bytes(n: nat) -> Seq<u8> {
    if n == 0 {
        seq![48u8, 115u8]
    } else {
        let s1 = n % 86400;
        let s2 = s1 % 3600;
        human_part(n / 86400, 100u8) + human_part(s1 / 3600, 104u8) + human_part(s2 / 60, 109u8)
            + human_part(s2 % 60, 115u8)
    }
}

/// The characters of ASCII bytes `b`.
pub open spec fn ascii_chars(b: Seq<u8>) -> Seq<char> {
    b.map_values(|x: u8| x as char)
}

impl Minutes {
    /// The same span in seconds, where that fits in a `u64`.
    pub fn to_seconds(self) -> (res: Seconds)
        requires
            self.0 * 60 <= u64::MAX,
        ensures
            res == Seconds((self.0 * 60) as u64),
    {
        Seconds(self.0 * 60)
    }
}

impl Hours {
    /// The same span in seconds, where that fits in a `u64`.
    pub fn to_seconds(self) -> (res: Seconds)
        requires
            self.0 * 3600 <= u64::MAX,
        ensures
            res == Seconds((self.0 * 3600) as u64),
    {
        Seconds(self.0 * 3600)
    }
}

impl Days {
    /// The same span in seconds, where that fits in a `u64`.
    pub fn to_seconds(self) -> (res: Seconds)
        requires
            self.0 * 86400 <= u64::MAX,
        ensures
            res == Seconds((self.0 * 86400) as u64),
    {
        Seconds(self.0 * 86400)
    }
}

impl Seconds {
    /// The sum, if it fits in a `u64`.
    pub fn checked_add(self, other: Self) -> (res: Option<Self>)
        ensures
            res == (if self.0 + other.0 <= u64::MAX {
                Some(Seconds((self.0 + other.0) as u64))
            } else {
                None
            }),
    {
        match self.0.checked_add(other.0) {
            Some(v) => Some(Seconds(v)),
            None => None,
        }
    }

    /// Appends the human-readable form of this duration to `w`.
    pub fn write_human(&self, w: &mut Vec<u8>)
        ensures
            final(w)@ == old(w)@ + human_bytes(self.0 as nat),
    {
        if self.0 == 0 {
            w.push(48u8);
            w.push(115u8);
            assert(final(w)@ =~= old(w)@ + human_bytes(self.0 as nat));
            return;
        }
        let ghost start = w@;
        let mut s = self.0;
        let days = s / 86400;
        s %= 86400;
        let hours = s / 3600;
        s %= 3600;
        let minutes = s / 60;
        let seconds = s % 60;

        if days > 0 {
            write_int(w, days);
            w.push(100u8);
        }
        assert(w@ =~= start + human_part(days as nat, 100u8));
        let ghost after_days = w@;
        if hours > 0 {
            write_int(w, hours);
            w.push(104u8);
        }
        assert(w@ =~= after_days + human_part(hours as nat, 104u8));
        let ghost after_hours = w@;
        if minutes > 0 {
            write_int(w, minutes);
            w.push(109u8);
        }
        assert(w@ =~= after_hours + human_part(minutes as nat, 109u8));
        let ghost after_minutes = w@;
        if seconds > 0 {
            write_int(w, seconds);
            w.push(115u8);
        }
        assert(w@ =~= after_minutes + human_part(seconds as nat, 115u8));
        assert(final(w)@ =~= old(w)@ + human_bytes(self.0 as nat));
    }

    /// The human-readable form of this duration as a `String`.
    pub fn to_string(&self) -> (res: String)
        ensures
            res@ == ascii_chars(human_bytes(self.0 as nat)),
    {
        let mut bytes: Vec<u8> = Vec::new();
        self.write_human(&mut bytes);
        proof {
            lemma_human_bytes_alphabet(self.0 as nat);
        }
        let mut res = String::new();
        let mut i: usize = 0;
        while i < bytes.len()
            invariant
                0 <= i <= bytes.len(),
                bytes@ == human_bytes(self.0 as nat),
                forall|k: int| 0 <= k < bytes@.len() ==> human_alphabet(#[trigger] bytes@[k]),
                res@ =~= ascii_chars(bytes@.subrange(0, i as int)),
            decreases bytes.len() - i,
        {
            let piece = ascii_str(bytes[i]);
            res.append(piece);
            assert(bytes@.subrange(0, i + 1) =~= bytes@.subrange(0, i as int).push(bytes@[i as int]));
            i += 1;
        }
        assert(bytes@.subrange(0, bytes@.len() as int) =~= bytes@);
        res
    }
}

/// The bytes that the human-readable form of a duration is made of.
pub open spec fn human_alphabet(b: u8) -> bool {
    (48 <= b <= 57) || b == 100 || b == 104 || b == 109 || b == 115
}

proof fn lemma_decimal_digits(n: nat)
    ensures
        decimal_bytes(n).len() >= 1,
        forall|k: int| 0 <= k < decimal_bytes(n).len() ==> 48 <= #[trigger] decimal_bytes(n)[k] <= 57,
    decreases n,
{
    if n >= 10 {
        lemma_decimal_digits(n / 10);
    }
}

proof fn lemma_human_bytes_alphabet(n: nat)
    ensures
        forall|k: int| 0 <= k < human_bytes(n).len() ==> human_alphabet(#[trigger] human_bytes(n)[k]),
{
    if n != 0 {
        let s1 = n % 86400;
        let s2 = s1 % 3600;
        lemma_decimal_digits(n / 86400);
        lemma_decimal_digits(s1 / 3600);
        lemma_decimal_digits(s2 / 60);
        lemma_decimal_digits(s2 % 60);
        let a = human_part(n / 86400, 100u8);
        let b = human_part(s1 / 3600, 104u8);
        let c = human_part(s2 / 60, 109u8);
        let d = human_part(s2 % 60, 115u8);
        assert forall|k: int| 0 <= k < human_bytes(n).len() implies human_alphabet(#[trigger] human_bytes(n)[k]) by {
            assert(human_bytes(n) == a + b + c + d);
            if k < a.len() {
                assert(human_bytes(n)[k] == a[k]);
            } else if k < a.len() + b.len() {
                assert(human_bytes(n)[k] == b[k - a.len()]);
            } else if k < a.len() + b.len() + c.len() {
                assert(human_bytes(n)[k] == c[k - a.len() - b.len()]);
            } else {
                assert(human_bytes(n)[k] == d[k - a.len() - b.len() - c.len()]);
            }
        }
    }
}

/// The one-character string of a byte of the human-readable duration form.
fn ascii_str(b: u8) -> (res: &'static str)
    requires
        human_alphabet(b),
    ensures
        res@ == seq![b as char],
{
    proof {
        reveal_strlit("0");
        reveal_strlit("1");
        reveal_strlit("2");
        reveal_strlit("3");
        reveal_strlit("4");
        reveal_strlit("5");
        reveal_strlit("6");
        reveal_strlit("7");
        reveal_strlit("8");
        reveal_strlit("9");
        reveal_strlit("d");
        reveal_strlit("h");
        reveal_strlit("m");
        reveal_strlit("s");
    }
    match b {
        48u8 => "0",
        49u8 => "1",
        50u8 => "2",
        51u8 => "3",
        52u8 => "4",
        53u8 => "5",
        54u8 => "6",
        55u8 => "7",
        56u8 => "8",
        57u8 => "9",
        100u8 => "d",
        104u8 => "h",
        109u8 => "m",
        _ => "s",
    }
}

/// Appends the decimal representation of `n` to `w`.
fn write_int(w: &mut Vec<u8>, n: u64)
    ensures
        final(w)@ == old(w)@ + decimal_bytes(n as nat),
{
    if n == 0 {
        w.push(48u8);
        assert(final(w)@ =~= old(w)@ + decimal_bytes(n as nat));
        return;
    }
    proof {
        lemma_decimal_len(n as nat);
    }
    // Digits, least significant first.
    let mut rev: Vec<u8> = Vec::new();
    let mut rest = n;
    while rest > 0
        invariant
            decimal_bytes(n as nat) =~= (if rest > 0 {
                decimal_bytes(rest as nat)
            } else {
                Seq::empty()
            }) + rev@.reverse(),
            rev@.len() <= 20,
            rest > 0 ==> rev@.len() + decimal_len(rest as nat) <= 20,
        decreases rest,
    {
        let d = (rest % 10) as u8;
        proof {
            lemma_decimal_len(rest as nat);
            if rest >= 10 {
                assert(decimal_bytes(rest as nat) == decimal_bytes((rest / 10) as nat).push(digit_byte((rest % 10) as int)));
            }
            assert(rev@.push((48u8 + d) as u8).reverse() =~= seq![(48u8 + d) as u8] + rev@.reverse());
        }
        rev.push(48u8 + d);
        rest = rest / 10;
    }
    let ghost start = w@;
    let mut k = rev.len();
    while k > 0
        invariant
            k <= rev@.len(),
            w@ =~= start + rev@.subrange(k as int, rev@.len() as int).reverse(),
        decreases k,
    {
        k -= 1;
        w.push(rev[k]);
        assert(rev@.subrange(k as int, rev@.len() as int).reverse() =~= rev@.subrange(k + 1, rev@.len() as int).reverse().push(rev@[k as int]));
    }
    assert(rev@.subrange(0, rev@.len() as int) =~= rev@);
}

/// Number of decimal digits of `n`.
pub open spec fn decimal_len(n: nat) -> nat
    decreases n,
{
    if n < 10 {
        1
    } else {
        decimal_len(n / 10) + 1
    }
}

proof fn lemma_decimal_len(n: nat)
    ensures
        decimal_bytes(n).len() == decimal_len(n),
        n <= u64::MAX ==> decimal_len(n) <= 20,
    decreases n,
{
    if n >= 10 {
        lemma_decimal_len(n / 10);
        lemma_decimal_len_bound(n);
    }
}

proof fn lemma_decimal_len_bound(n: nat)
    ensures
        n < 10 ==> decimal_len(n) == 1,
        n <= u64::MAX ==> decimal_len(n) <= 20,
    decreases n,
{
    if n >= 10 {
        lemma_decimal_len_bound(n / 10);
        lemma_decimal_len_pow(n);
    }
}

proof fn lemma_decimal_len_pow(n: nat)
    ensures
        n < 100000000000000000000 ==> decimal_len(n) <= 20,
{
    lemma_decimal_len_le(n, 20);
    assert(pow10(20) == 100000000000000000000nat) by {
        reveal_with_fuel(pow10, 21);
    }
}

/// Ten to the power `k`.
pub open spec fn pow10(k: nat) -> nat
    decreases k,
{
    if k == 0 {
        1
    } else {
        10 * pow10((k - 1) as nat)
    }
}

proof fn lemma_decimal_len_le(n: nat, k: nat)
    ensures
        k >= 1 && n < pow10(k) ==> decimal_len(n) <= k,
    decreases k,
{
    reveal_with_fuel(pow10, 2);
    if k >= 2 && n >= 10 && n < pow10(k) {
        let p = pow10((k - 1) as nat);
        assert(n / 10 < p) by (nonlinear_arith)
            requires
                n < 10 * p,
        ;
        lemma_decimal_len_le(n / 10, (k - 1) as nat);
    }
}

} // verus!
