//! Parses 12-hour clock times such as "1:30 pm" into today's local date and time.
use vstd::prelude::*;

use crate::system::{local_today_at, lower_of, lowercase_chars};

verus! {

/// A time of day on the 24-hour clock.
#[derive(Debug, Clone, Copy, PartialEq, Eq, Structural)]
pub struct ClockTime {
    pub hour: u32,
    pub minute: u32,
}

/// A local calendar date and time, with the instant it denotes in microseconds since the
/// epoch (UTC).
#[derive(Debug, Clone, Copy, PartialEq, Eq, Structural)]
pub struct LocalDateTime {
    pub year: i32,
    pub month: u32,
    pub day: u32,
    pub hour: u32,
    pub minute: u32,
    pub second: u32,
    pub timestamp_micros: i64,
}

/// Why a phrase gave no date and time; each carries the phrase as typed.
#[derive(Debug)]
pub enum DateParserError {
    /// The phrase is not a 12-hour clock time.
    NotAClockTime(String),
    /// Today's local date has no single instant at that time.
    NoSuchLocalTime(String),
}

pub open spec fn is_digit(c: char) -> bool {
    '0' <= c <= '9'
}

pub open spec fn digit_value(c: char) -> int {
    c as int - '0' as int
}

/// An hour token: `1`-`9`, `01`-`09` or `10`-`12`.
pub open spec fn hour_of(b: Seq<char>) -> Option<int> {
    if b.len() == 1 && '1' <= b[0] <= '9' {
        Some(digit_value(b[0]))
    } else if b.len() == 2 && b[0] == '0' && '1' <= b[1] <= '9' {
        Some(digit_value(b[1]))
    } else if b.len() == 2 && b[0] == '1' && '0' <= b[1] <= '2' {
        Some(10 + digit_value(b[1]))
    } else {
        None
    }
}

/// A minute token: one digit, or two from `00` to `59`.
pub open spec fn minute_of(b: Seq<char>) -> Option<int> {
    if b.len() == 1 && is_digit(b[0]) {
        Some(digit_value(b[0]))
    } else if b.len() == 2 && '0' <= b[0] <= '5' && is_digit(b[1]) {
        Some(10 * digit_value(b[0]) + digit_value(b[1]))
    } else {
        None
    }
}

/// Hour and minute of `H` or `H:M`; a missing minute is zero.
pub open spec fn hour_minute_of(b: Seq<char>) -> Option<(int, int)> {
    if hour_of(b) is Some {
        Some((hour_of(b)->0, 0))
    } else if b.len() >= 2 && b[1] == ':' && hour_of(b.take(1)) is Some && minute_of(b.skip(2)) is Some {
        Some((hour_of(b.take(1))->0, minute_of(b.skip(2))->0))
    } else if b.len() >= 3 && b[2] == ':' && hour_of(b.take(2)) is Some && minute_of(b.skip(3)) is Some {
        Some((hour_of(b.take(2))->0, minute_of(b.skip(3))->0))
    } else {
        None
    }
}

/// `Some(true)` for a trailing "pm", `Some(false)` for "am".
pub open spec fn meridiem_of(s: Seq<char>) -> Option<bool> {
    if s.len() >= 2 && s[s.len() - 2] == 'a' && s[s.len() - 1] == 'm' {
        Some(false)
    } else if s.len() >= 2 && s[s.len() - 2] == 'p' && s[s.len() - 1] == 'm' {
        Some(true)
    } else {
        None
    }
}

/// The 24-hour time that a compact clock phrase such as "1:30pm" names.
pub open spec fn clock_time_of(s: Seq<char>) -> Option<(int, int)> {
    if meridiem_of(s) is Some && hour_minute_of(s.take(s.len() - 2)) is Some {
        let (h, m) = hour_minute_of(s.take(s.len() - 2))->0;
        Some((h % 12 + if meridiem_of(s)->0 {
            12int
        } else {
            0int
        }, m))
    } else {
        None
    }
}

/// The characters with the Unicode White_Space property.
pub open spec fn white_space(c: char) -> bool {
    ('\u{9}' <= c <= '\u{d}') || c == ' ' || c == '\u{85}' || c == '\u{a0}' || c == '\u{1680}'
        || ('\u{2000}' <= c <= '\u{200a}') || c == '\u{2028}' || c == '\u{2029}' || c
        == '\u{202f}' || c == '\u{205f}' || c == '\u{3000}'
}

/// Whether `c` has the Unicode White_Space property (what `char::is_whitespace` answers).
pub fn is_white_space(c: char) -> (r: bool)
    ensures
        r == white_space(c),
{
    ('\u{9}' <= c && c <= '\u{d}') || c == ' ' || c == '\u{85}' || c == '\u{a0}' || c
        == '\u{1680}' || ('\u{2000}' <= c && c <= '\u{200a}') || c == '\u{2028}' || c
        == '\u{2029}' || c == '\u{202f}' || c == '\u{205f}' || c == '\u{3000}'
}

pub open spec fn not_white_space() -> spec_fn(char) -> bool {
    |c: char| !white_space(c)
}

/// The clock time of a phrase once lowercased: whitespace anywhere is ignored.
pub open spec fn phrase_time(lowered: Seq<char>) -> Option<(int, int)> {
    clock_time_of(lowered.filter(not_white_space()))
}

fn hour_token(s: &Vec<char>, from: usize, to: usize) -> (r: Option<u32>)
    requires
        from <= to <= s@.len(),
    ensures
        r matches Some(h) ==> hour_of(s@.subrange(from as int, to as int)) == Some(h as int),
        r is None ==> hour_of(s@.subrange(from as int, to as int)) is None,
{
    let ghost b = s@.subrange(from as int, to as int);
    if to - from == 1 && '1' <= s[from] && s[from] <= '9' {
        assert(b[0] == s@[from as int]);
        Some((s[from] as u32) - ('0' as u32))
    } else if to - from == 2 && s[from] == '0' && '1' <= s[from + 1] && s[from + 1] <= '9' {
        assert(b[0] == s@[from as int] && b[1] == s@[from + 1]);
        Some((s[from + 1] as u32) - ('0' as u32))
    } else if to - from == 2 && s[from] == '1' && '0' <= s[from + 1] && s[from + 1] <= '2' {
        assert(b[0] == s@[from as int] && b[1] == s@[from + 1]);
        Some(10 + (s[from + 1] as u32) - ('0' as u32))
    } else {
        proof {
            if b.len() >= 1 {
                assert(b[0] == s@[from as int]);
            }
            if b.len() == 2 {
                assert(b[1] == s@[from + 1]);
            }
        }
        None
    }
}

fn minute_token(s: &Vec<char>, from: usize, to: usize) -> (r: Option<u32>)
    requires
        from <= to <= s@.len(),
    ensures
        r matches Some(m) ==> minute_of(s@.subrange(from as int, to as int)) == Some(m as int),
        r is None ==> minute_of(s@.subrange(from as int, to as int)) is None,
{
    let ghost b = s@.subrange(from as int, to as int);
    if to - from == 1 && '0' <= s[from] && s[from] <= '9' {
        assert(b[0] == s@[from as int]);
        Some((s[from] as u32) - ('0' as u32))
    } else if to - from == 2 && '0' <= s[from] && s[from] <= '5' && '0' <= s[from + 1] && s[from
        + 1] <= '9' {
        assert(b[0] == s@[from as int] && b[1] == s@[from + 1]);
        Some(10 * ((s[from] as u32) - ('0' as u32)) + (s[from + 1] as u32) - ('0' as u32))
    } else {
        proof {
            if b.len() >= 1 {
                assert(b[0] == s@[from as int]);
            }
            if b.len() == 2 {
                assert(b[1] == s@[from + 1]);
            }
        }
        None
    }
}

/// Reads a compact clock phrase: an hour `1`-`12` (optionally zero-padded), an optional
/// `:M` or `:MM` minute up to 59, then "am" or "pm".
pub fn parse_clock_time(s: &Vec<char>) -> (r: Option<ClockTime>)
    ensures
        r matches Some(t) ==> clock_time_of(s@) == Some((t.hour as int, t.minute as int)),
        r matches Some(t) ==> t.hour < 24 && t.minute < 60,
        r is None ==> clock_time_of(s@) is None,
{
    let n = s.len();
    if n < 2 {
        return None;
    }
    let pm = if s[n - 2] == 'a' && s[n - 1] == 'm' {
        false
    } else if s[n - 2] == 'p' && s[n - 1] == 'm' {
        true
    } else {
        return None;
    };
    let b = n - 2;
    let ghost body = s@.take(b as int);
    assert(body =~= s@.subrange(0, b as int));
    let hm: Option<(u32, u32)> = match hour_token(s, 0, b) {
        Some(h) => Some((h, 0)),
        None => {
            if b >= 2 && s[1] == ':' {
                assert(body.take(1) =~= s@.subrange(0, 1));
                assert(body.skip(2) =~= s@.subrange(2, b as int));
                match (hour_token(s, 0, 1), minute_token(s, 2, b)) {
                    (Some(h), Some(m)) => Some((h, m)),
                    _ => None,
                }
            } else if b >= 3 && s[2] == ':' {
                assert(body.take(2) =~= s@.subrange(0, 2));
                assert(body.skip(3) =~= s@.subrange(3, b as int));
                assert(body[1] == s@[1]);
                match (hour_token(s, 0, 2), minute_token(s, 3, b)) {
                    (Some(h), Some(m)) => Some((h, m)),
                    _ => None,
                }
            } else {
                proof {
                    if body.len() >= 2 {
                        assert(body[1] == s@[1]);
                    }
                    if body.len() >= 3 {
                        assert(body[2] == s@[2]);
                    }
                }
                None
            }
        },
    };
    match hm {
        Some((h, m)) => {
            let hour = h % 12 + if pm {
                12
            } else {
                0
            };
            Some(ClockTime { hour, minute: m })
        },
        None => None,
    }
}

/// Drops every whitespace character, keeping the others in order.
pub fn strip_whitespace(v: &Vec<char>) -> (r: Vec<char>)
    ensures
        r@ == v@.filter(not_white_space()),
{
    let ghost p = not_white_space();
    let mut out: Vec<char> = Vec::new();
    let mut i: usize = 0;
    while i < v.len()
        invariant
            i <= v.len(),
            out@ == v@.take(i as int).filter(p),
            p == not_white_space(),
        decreases v.len() - i,
    {
        let ghost before = v@.take(i as int);
        proof {
            reveal(Seq::filter);
        }
        if !is_white_space(v[i]) {
            out.push(v[i]);
        }
        i += 1;
        assert(v@.take(i as int).drop_last() =~= before);
    }
    assert(v@.take(i as int) =~= v@);
    out
}

/// The clock time of an already lowercased phrase, whitespace ignored.
pub fn clean_clock_time(lowered: &Vec<char>) -> (r: Option<ClockTime>)
    ensures
        r matches Some(t) ==> phrase_time(lowered@) == Some((t.hour as int, t.minute as int)),
        r matches Some(t) ==> t.hour < 24 && t.minute < 60,
        r is None ==> phrase_time(lowered@) is None,
{
    let compact = strip_whitespace(lowered);
    parse_clock_time(&compact)
}

/// Parses a 12-hour clock phrase ("1pm", "01:30 PM") into that time today, local time,
/// with seconds at zero.
pub fn parse_date(input: &str) -> (r: Result<LocalDateTime, DateParserError>)
    ensures
        match r {
            Ok(d) => {
                &&& phrase_time(lower_of(input@)) == Some((d.hour as int, d.minute as int))
                &&& d.second == 0
            },
            Err(DateParserError::NotAClockTime(m)) => {
                &&& phrase_time(lower_of(input@)) is None
                &&& m@ == input@
            },
            Err(DateParserError::NoSuchLocalTime(m)) => {
                &&& phrase_time(lower_of(input@)) is Some
                &&& m@ == input@
            },
        },
{
    let lowered = lowercase_chars(input);
    match clean_clock_time(&lowered) {
        None => Err(DateParserError::NotAClockTime(input.to_owned())),
        Some(t) => {
            assert(t.hour < 24 && t.minute < 60);
            match local_today_at(t.hour, t.minute) {
                Some(d) => Ok(d),
                None => Err(DateParserError::NoSuchLocalTime(input.to_owned())),
            }
        },
    }
}

} // verus!
