//! Calendar timestamps at one-second resolution, in UTC, and their text form
//! `YYYY-MM-DD HH:MM:SS` in note metadata.
use vstd::prelude::*;
use crate::text::chars_of;
use chrono::{Datelike, Timelike};

verus! {

/// A UTC date and time of day, to the second.
#[derive(Clone, Copy, Debug, PartialEq, Eq, Structural)]
pub struct Timestamp {
    pub year: u32,
    pub month: u32,
    pub day: u32,
    pub hour: u32,
    pub minute: u32,
    pub second: u32,
}

pub open spec fn is_leap_year(y: int) -> bool {
    (y % 4 == 0 && y % 100 != 0) || y % 400 == 0
}

pub open spec fn days_in_month(y: int, m: int) -> int {
    if m == 2 {
        if is_leap_year(y) {
            29
        } else {
            28
        }
    } else if m == 4 || m == 6 || m == 9 || m == 11 {
        30
    } else {
        31
    }
}

impl Timestamp {
    /// A real calendar date with a four-digit year and a real time of day.
    pub open spec fn valid(self) -> bool {
        &&& self.year <= 9999
        &&& 1 <= self.month <= 12
        &&& 1 <= self.day <= days_in_month(self.year as int, self.month as int)
        &&& self.hour < 24
        &&& self.minute < 60
        &&& self.second < 60
    }
}

/// Whether the fields form a valid [`Timestamp`].
pub fn fields_valid(year: u32, month: u32, day: u32, hour: u32, minute: u32, second: u32) -> (r: bool)
    ensures
        r == (Timestamp { year, month, day, hour, minute, second }).valid(),
{
    if year > 9999 || month < 1 || month > 12 || hour >= 24 || minute >= 60 || second >= 60 {
        return false;
    }
    let leap = (year % 4 == 0 && year % 100 != 0) || year % 400 == 0;
    let dim: u32 = if month == 2 {
        if leap {
            29
        } else {
            28
        }
    } else if month == 4 || month == 6 || month == 9 || month == 11 {
        30
    } else {
        31
    };
    1 <= day && day <= dim
}

pub open spec fn digit_char(d: int) -> char {
    if d == 0 { '0' } else if d == 1 { '1' } else if d == 2 { '2' } else if d == 3 { '3' } else if d == 4 { '4' } else if d == 5 { '5' } else if d == 6 { '6' } else if d == 7 { '7' } else if d == 8 { '8' } else { '9' }
}

pub open spec fn is_digit_char(c: char) -> bool {
    '0' <= c && c <= '9'
}

pub open spec fn digit_value(c: char) -> int {
    c as int - '0' as int
}

/// The last `w` decimal digits of `n`, zero-padded.
pub open spec fn digits(n: int, w: nat) -> Seq<char>
    decreases w,
{
    if w == 0 {
        Seq::empty()
    } else {
        digits(n / 10, (w - 1) as nat).push(digit_char(n % 10))
    }
}

/// The value of a string of decimal digits.
pub open spec fn number(s: Seq<char>) -> int
    decreases s.len(),
{
    if s.len() == 0 {
        0
    } else {
        number(s.drop_last()) * 10 + digit_value(s.last())
    }
}

/// The text form `YYYY-MM-DD HH:MM:SS`.
pub open spec fn format_timestamp(t: Timestamp) -> Seq<char> {
    digits(t.year as int, 4) + seq!['-'] + digits(t.month as int, 2) + seq!['-'] + digits(t.day as int, 2) + seq![' ']
        + digits(t.hour as int, 2) + seq![':'] + digits(t.minute as int, 2) + seq![':'] + digits(t.second as int, 2)
}

/// Positions of the separators in the text form, and the character each holds.
pub open spec fn separator_at(i: int) -> Option<char> {
    if i == 4 || i == 7 {
        Some('-')
    } else if i == 10 {
        Some(' ')
    } else if i == 13 || i == 16 {
        Some(':')
    } else {
        None
    }
}

/// `s` has the shape `DDDD-DD-DD DD:DD:DD`.
pub open spec fn plain_shape(s: Seq<char>) -> bool {
    &&& s.len() == 19
    &&& forall|i: int| 0 <= i < 19 ==> match separator_at(i) {
        Some(c) => s[i] == c,
        None => is_digit_char(#[trigger] s[i]),
    }
}

pub open spec fn fields_of(s: Seq<char>) -> Timestamp {
    Timestamp {
        year: number(s.subrange(0, 4)) as u32,
        month: number(s.subrange(5, 7)) as u32,
        day: number(s.subrange(8, 10)) as u32,
        hour: number(s.subrange(11, 13)) as u32,
        minute: number(s.subrange(14, 16)) as u32,
        second: number(s.subrange(17, 19)) as u32,
    }
}

/// The timestamp written as `YYYY-MM-DD HH:MM:SS`, if `s` is one.
pub open spec fn parse_plain(s: Seq<char>) -> Option<Timestamp> {
    if plain_shape(s) && fields_of(s).valid() {
        Some(fields_of(s))
    } else {
        None
    }
}

/// What `chrono::DateTime::parse_from_rfc3339` makes of a string, converted
/// to UTC and given as year, month, day, hour, minute and second.
pub uninterp spec fn rfc3339_fields(s: Seq<char>) -> Option<(int, int, int, int, int, int)>;

pub open spec fn timestamp_of_fields(f: (int, int, int, int, int, int)) -> Option<Timestamp> {
    if 0 <= f.0 <= 9999 && 0 <= f.1 && 0 <= f.2 && 0 <= f.3 && 0 <= f.4 && 0 <= f.5 && f.1 <= 12 && f.2 <= 31 && f.3 < 24 && f.4 < 60 && f.5 < 60 {
        let t = Timestamp { year: f.0 as u32, month: f.1 as u32, day: f.2 as u32, hour: f.3 as u32, minute: f.4 as u32, second: f.5 as u32 };
        if t.valid() {
            Some(t)
        } else {
            None
        }
    } else {
        None
    }
}

/// A metadata timestamp: the plain form, or else the RFC 3339 form that
/// older files carry.
pub open spec fn parse_timestamp(s: Seq<char>) -> Option<Timestamp> {
    match parse_plain(s) {
        Some(t) => Some(t),
        None => match rfc3339_fields(s) {
            Some(f) => timestamp_of_fields(f),
            None => None,
        },
    }
}

/// Relies on `chrono::DateTime::parse_from_rfc3339` and `with_timezone(&Utc)`:
/// the UTC fields of an RFC 3339 timestamp, or `None` where it is not one.
#[verifier::external_body]
fn rfc3339_utc(s: &str) -> (r: Option<(i64, i64, i64, i64, i64, i64)>)
    ensures
        match r {
            Some(f) => rfc3339_fields(s@) == Some((f.0 as int, f.1 as int, f.2 as int, f.3 as int, f.4 as int, f.5 as int)),
            None => rfc3339_fields(s@) is None,
        },
{
    match chrono::DateTime::parse_from_rfc3339(s) {
        Ok(dt) => {
            let u = dt.with_timezone(&chrono::Utc);
            Some((u.year() as i64, u.month() as i64, u.day() as i64, u.hour() as i64, u.minute() as i64, u.second() as i64))
        },
        Err(_) => None,
    }
}

/// Relies on `SystemTime::now` and `duration_since(UNIX_EPOCH)`, which fails
/// for a clock before 1970, and on `chrono::DateTime::from_timestamp`, which
/// gives `None` out of its range: the current UTC time's calendar fields and
/// the nanoseconds past the second, where both succeed.
#[verifier::external_body]
fn utc_now_fields() -> (r: Option<(i64, i64, i64, i64, i64, i64, u32)>)
{
    match std::time::SystemTime::now().duration_since(std::time::UNIX_EPOCH) {
        Ok(d) => match chrono::DateTime::from_timestamp(d.as_secs() as i64, d.subsec_nanos()) {
            Some(u) => Some((u.year() as i64, u.month() as i64, u.day() as i64, u.hour() as i64, u.minute() as i64, u.second() as i64, u.timestamp_subsec_nanos())),
            None => None,
        },
        Err(_) => None,
    }
}

/// The epoch, used where the clock reads a time outside the supported range.
pub open spec fn epoch() -> Timestamp {
    Timestamp { year: 1970, month: 1, day: 1, hour: 0, minute: 0, second: 0 }
}

/// The current UTC time and the nanoseconds past its second; always a valid
/// timestamp (the epoch where the clock cannot be read as one).
pub fn now() -> (r: (Timestamp, u32))
    ensures
        r.0.valid(),
{
    let e = Timestamp { year: 1970, month: 1, day: 1, hour: 0, minute: 0, second: 0 };
    let f = match utc_now_fields() {
        Some(f) => f,
        None => {
            return (e, 0);
        },
    };
    if 0 <= f.0 && f.0 <= 9999 && 1 <= f.1 && f.1 <= 12 && 1 <= f.2 && f.2 <= 31 && 0 <= f.3 && f.3 < 24 && 0 <= f.4 && f.4 < 60 && 0 <= f.5 && f.5 < 60 {
        let (y, mo, d, h, mi, s) = (f.0 as u32, f.1 as u32, f.2 as u32, f.3 as u32, f.4 as u32, f.5 as u32);
        if fields_valid(y, mo, d, h, mi, s) {
            return (Timestamp { year: y, month: mo, day: d, hour: h, minute: mi, second: s }, f.6);
        }
    }
    (e, f.6)
}

fn digit_to_char(d: u32) -> (c: char)
    requires
        d < 10,
    ensures
        c == digit_char(d as int),
{
    if d == 0 { '0' } else if d == 1 { '1' } else if d == 2 { '2' } else if d == 3 { '3' } else if d == 4 { '4' } else if d == 5 { '5' } else if d == 6 { '6' } else if d == 7 { '7' } else if d == 8 { '8' } else { '9' }
}

/// Appends the last two decimal digits of `n`.
pub fn push_two_digits(dst: &mut Vec<char>, n: u32)
    ensures
        final(dst)@ == old(dst)@ + digits(n as int, 2),
{
    dst.push(digit_to_char((n / 10) % 10));
    dst.push(digit_to_char(n % 10));
    proof {
        reveal_with_fuel(digits, 3);
        assert((n as int / 10) % 10 == (n as int / 10) % 10);
        assert(digits(n as int, 2) =~= seq![digit_char((n as int / 10) % 10), digit_char(n as int % 10)]);
    }
}

/// Appends the last four decimal digits of `n`.
pub fn push_four_digits(dst: &mut Vec<char>, n: u32)
    ensures
        final(dst)@ == old(dst)@ + digits(n as int, 4),
{
    dst.push(digit_to_char((n / 1000) % 10));
    dst.push(digit_to_char((n / 100) % 10));
    dst.push(digit_to_char((n / 10) % 10));
    dst.push(digit_to_char(n % 10));
    proof {
        reveal_with_fuel(digits, 5);
        let m = n as int;
        assert(m / 10 / 10 == m / 100) by (nonlinear_arith);
        assert(m / 10 / 10 / 10 == m / 1000) by (nonlinear_arith);
        assert(digits(m, 4) =~= seq![digit_char((m / 1000) % 10), digit_char((m / 100) % 10), digit_char((m / 10) % 10), digit_char(m % 10)]);
    }
}

/// The fields of `t` as one run of digits, `YYYYMMDDHHMMSS`.
pub open spec fn compact_timestamp(t: Timestamp) -> Seq<char> {
    digits(t.year as int, 4) + digits(t.month as int, 2) + digits(t.day as int, 2) + digits(t.hour as int, 2) + digits(t.minute as int, 2) + digits(t.second as int, 2)
}

/// `n` in decimal, without leading zeros.
pub open spec fn decimal(n: nat) -> Seq<char>
    decreases n,
{
    if n < 10 {
        seq![digit_char(n as int)]
    } else {
        decimal(n / 10).push(digit_char((n % 10) as int))
    }
}

/// Appends `n` in decimal (see [`decimal`]).
pub fn push_decimal(dst: &mut Vec<char>, n: u32)
    ensures
        final(dst)@ == old(dst)@ + decimal(n as nat),
    decreases n,
{
    let ghost start = dst@;
    if n >= 10 {
        push_decimal(dst, n / 10);
    }
    dst.push(digit_to_char(n % 10));
    proof {
        if n >= 10 {
            assert(dst@ =~= start + decimal(n as nat));
        } else {
            assert(dst@ =~= start + decimal(n as nat));
        }
    }
}

/// Appends the compact form of `t` (see [`compact_timestamp`]).
pub fn push_compact(dst: &mut Vec<char>, t: &Timestamp)
    ensures
        final(dst)@ == old(dst)@ + compact_timestamp(*t),
{
    let ghost start = dst@;
    push_four_digits(dst, t.year);
    push_two_digits(dst, t.month);
    push_two_digits(dst, t.day);
    push_two_digits(dst, t.hour);
    push_two_digits(dst, t.minute);
    push_two_digits(dst, t.second);
    proof {
        assert(dst@ =~= start + compact_timestamp(*t));
    }
}

/// Appends the text form of `t` (see [`format_timestamp`]).
pub fn push_timestamp(dst: &mut Vec<char>, t: &Timestamp)
    ensures
        final(dst)@ == old(dst)@ + format_timestamp(*t),
{
    let ghost start = dst@;
    push_four_digits(dst, t.year);
    dst.push('-');
    push_two_digits(dst, t.month);
    dst.push('-');
    push_two_digits(dst, t.day);
    dst.push(' ');
    push_two_digits(dst, t.hour);
    dst.push(':');
    push_two_digits(dst, t.minute);
    dst.push(':');
    push_two_digits(dst, t.second);
    proof {
        assert(dst@ =~= start + format_timestamp(*t));
    }
}

/// Value of the decimal digits `v[lo..hi]`.
fn number_of(v: &Vec<char>, lo: usize, hi: usize) -> (r: u32)
    requires
        lo <= hi <= v.len(),
        hi - lo <= 4,
        forall|i: int| lo <= i < hi ==> is_digit_char(#[trigger] v@[i]),
    ensures
        r as int == number(v@.subrange(lo as int, hi as int)),
{
    let mut k = lo;
    let mut acc: u32 = 0;
    while k < hi
        invariant
            lo <= k <= hi <= v.len(),
            hi - lo <= 4,
            forall|i: int| lo <= i < hi ==> is_digit_char(#[trigger] v@[i]),
            acc as int == number(v@.subrange(lo as int, k as int)),
            acc < pow10((k - lo) as nat),
        decreases hi - k,
    {
        proof {
            assert(v@.subrange(lo as int, k + 1).drop_last() =~= v@.subrange(lo as int, k as int));
            assert(is_digit_char(v@[k as int]));
            lemma_pow10_step((k - lo) as nat);
        }
        let d = (v[k] as u32) - ('0' as u32);
        acc = acc * 10 + d;
        k = k + 1;
    }
    acc
}

pub open spec fn pow10(n: nat) -> int
    decreases n,
{
    if n == 0 {
        1
    } else {
        10 * pow10((n - 1) as nat)
    }
}

proof fn lemma_pow10_step(n: nat)
    requires
        n < 4,
    ensures
        pow10(n) <= 1000,
        pow10(n + 1) == 10 * pow10(n),
{
    reveal_with_fuel(pow10, 5);
}

fn shape_ok(v: &Vec<char>) -> (r: bool)
    ensures
        r == plain_shape(v@),
{
    if v.len() != 19 {
        return false;
    }
    let mut i: usize = 0;
    while i < 19
        invariant
            v.len() == 19,
            i <= 19,
            forall|j: int| 0 <= j < i ==> match separator_at(j) {
                Some(c) => v@[j] == c,
                None => is_digit_char(#[trigger] v@[j]),
            },
        decreases 19 - i,
    {
        let c = v[i];
        let ok = if i == 4 || i == 7 {
            c == '-'
        } else if i == 10 {
            c == ' '
        } else if i == 13 || i == 16 {
            c == ':'
        } else {
            '0' <= c && c <= '9'
        };
        if !ok {
            return false;
        }
        i = i + 1;
    }
    true
}

/// Reads a metadata timestamp (see [`parse_timestamp`]).
pub fn parse_datetime(s: &str) -> (r: Option<Timestamp>)
    ensures
        r == parse_timestamp(s@),
{
    let v = chars_of(s);
    if shape_ok(&v) {
        let year = number_of(&v, 0, 4);
        let month = number_of(&v, 5, 7);
        let day = number_of(&v, 8, 10);
        let hour = number_of(&v, 11, 13);
        let minute = number_of(&v, 14, 16);
        let second = number_of(&v, 17, 19);
        if fields_valid(year, month, day, hour, minute, second) {
            return Some(Timestamp { year, month, day, hour, minute, second });
        }
    }
    match rfc3339_utc(s) {
        Some(f) => {
            if 0 <= f.0 && f.0 <= 9999 && 0 <= f.1 && 0 <= f.2 && 0 <= f.3 && 0 <= f.4 && 0 <= f.5 && f.1 <= 12 && f.2 <= 31 && f.3 < 24 && f.4 < 60 && f.5 < 60 {
                let (y, mo, d, h, mi, sec) = (f.0 as u32, f.1 as u32, f.2 as u32, f.3 as u32, f.4 as u32, f.5 as u32);
                if fields_valid(y, mo, d, h, mi, sec) {
                    return Some(Timestamp { year: y, month: mo, day: d, hour: h, minute: mi, second: sec });
                }
            }
            None
        },
        None => None,
    }
}

} // verus!
