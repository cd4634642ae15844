//! One ledger entry: a wall-clock minute and a display text that normally
//! carries the time as a `"[HH:MM] "` prefix in front of the label.

use vstd::prelude::*;
use vstd::string::StrSliceExecFns;
use vstd::string::StringExecFns;
use crate::strutil::push_char;
use crate::strutil::push_two_digits;
use crate::strutil::two_digits;

verus! {

/// One ledger entry. `text` is the display form, `time` the entry's
/// minute of the day.
pub struct TimePoint {
    pub text: String,
    pub time: u16,
}

/// Whether a character is a decimal digit.
pub open spec fn is_digit(c: char) -> bool {
    48 <= c as u32 <= 57
}

/// The numeric value of a digit character.
pub open spec fn digit_val(c: char) -> int {
    c as u32 - 48
}

/// The display prefix `"[HH:MM] "` of a time given in minutes since midnight.
pub open spec fn prefix_seq(t: int) -> Seq<char> {
    seq!['['] + two_digits(t / 60) + seq![':'] + two_digits(t % 60) + seq![']', ' ']
}

/// What parsing a `"[HH:MM]"`-shaped prefix yields: the minute of the day
/// and the remaining label, with one separating space removed; nothing when
/// the text does not begin with such a prefix.
pub open spec fn parse_prefix_spec(t: Seq<char>) -> Option<(int, Seq<char>)> {
    if t.len() >= 7 && t[0] == '[' && is_digit(t[1]) && is_digit(t[2]) && t[3] == ':'
        && is_digit(t[4]) && is_digit(t[5]) && t[6] == ']' && digit_val(t[1]) * 10 + digit_val(
        t[2],
    ) < 24 && digit_val(t[4]) * 10 + digit_val(t[5]) < 60 {
        let minutes = (digit_val(t[1]) * 10 + digit_val(t[2])) * 60 + digit_val(t[4]) * 10
            + digit_val(t[5]);
        if t.len() > 7 && t[7] == ' ' {
            Some((minutes, t.skip(8)))
        } else {
            Some((minutes, t.skip(7)))
        }
    } else {
        None
    }
}

/// The label part of a display text: what follows a well-formed time
/// prefix, or the whole text when no such prefix is present.
pub open spec fn label_part(t: Seq<char>) -> Seq<char> {
    match parse_prefix_spec(t) {
        Some(p) => p.1,
        None => t,
    }
}

/// Appends the display prefix of a time.
pub(crate) fn push_prefix(s: &mut String, t: u16)
    requires
        t < 1440,
    ensures
        final(s)@ == old(s)@ + prefix_seq(t as int),
{
    let ghost start = s@;
    push_char(s, '[');
    push_two_digits(s, (t / 60) as u64);
    push_char(s, ':');
    push_two_digits(s, (t % 60) as u64);
    push_char(s, ']');
    push_char(s, ' ');
    assert(s@ =~= start + prefix_seq(t as int));
}

/// Relies on `time::OffsetDateTime::now_local` (falling back to `now_utc`
/// when the local offset cannot be determined), `time::OffsetDateTime::time`,
/// and `time::Time::hour` / `minute`, which the `time` crate documents to
/// lie in `0..24` and `0..60`.
#[verifier::external_body]
fn now_hour_minute() -> (r: (u8, u8))
    ensures
        r.0 < 24,
        r.1 < 60,
{
    let t = match time::OffsetDateTime::now_local() {
        Ok(dt) => dt.time(),
        Err(_) => time::OffsetDateTime::now_utc().time(),
    };
    (t.hour(), t.minute())
}

/// The current wall-clock time as minutes since midnight.
pub fn now_minutes() -> (r: u16)
    ensures
        r < 1440,
{
    let hm = now_hour_minute();
    (hm.0 as u16) * 60 + (hm.1 as u16)
}

/// The numeric value of a digit character, or nothing.
fn digit_of(c: char) -> (r: Option<u8>)
    ensures
        match r {
            Some(d) => is_digit(c) && d as int == digit_val(c),
            None => !is_digit(c),
        },
{
    let u = c as u32;
    if 48 <= u && u <= 57 {
        Some((u - 48) as u8)
    } else {
        None
    }
}

impl TimePoint {
    /// A valid entry time lies within the day.
    pub open spec fn wf(&self) -> bool {
        self.time < 1440
    }

    /// An entry at the given minute of the day, displayed as prefix + label.
    pub fn new_at(text: &str, time: u16) -> (r: Self)
        requires
            time < 1440,
        ensures
            r.time == time,
            r.text@ == prefix_seq(time as int) + text@,
            r.wf(),
    {
        let mut s = String::new();
        push_prefix(&mut s, time);
        s.append(text);
        TimePoint { text: s, time }
    }

    /// An entry at the current wall-clock minute.
    pub fn new(text: &str) -> (r: Self)
        ensures
            r.wf(),
            r.text@ == prefix_seq(r.time as int) + text@,
    {
        let now = now_minutes();
        Self::new_at(text, now)
    }

    /// The stored display text, verbatim.
    pub fn display(&self) -> (r: String)
        ensures
            r@ == self.text@,
    {
        self.text.clone()
    }

    /// Reads a `"[HH:MM]"`-shaped prefix from the front of a text; on
    /// success yields the minute of the day and the remaining label.
    pub fn parse_prefix(text: &str) -> (r: Option<(u16, String)>)
        ensures
            match r {
                Some(p) => parse_prefix_spec(text@) == Some((p.0 as int, p.1@)) && p.0 < 1440,
                None => parse_prefix_spec(text@) is None,
            },
    {
        let len = text.unicode_len();
        if len < 7 {
            return None;
        }
        if text.get_char(0) != '[' || text.get_char(3) != ':' || text.get_char(6) != ']' {
            return None;
        }
        let d1 = match digit_of(text.get_char(1)) {
            Some(d) => d,
            None => { return None; },
        };
        let d2 = match digit_of(text.get_char(2)) {
            Some(d) => d,
            None => { return None; },
        };
        let d4 = match digit_of(text.get_char(4)) {
            Some(d) => d,
            None => { return None; },
        };
        let d5 = match digit_of(text.get_char(5)) {
            Some(d) => d,
            None => { return None; },
        };
        let hour: u16 = (d1 as u16) * 10 + (d2 as u16);
        let minute: u16 = (d4 as u16) * 10 + (d5 as u16);
        if hour >= 24 || minute >= 60 {
            return None;
        }
        let time: u16 = hour * 60 + minute;
        let rest: String = if len > 7 && text.get_char(7) == ' ' {
            proof {
                assert(text@.subrange(8, len as int) =~= text@.skip(8));
            }
            text.substring_char(8, len).to_owned()
        } else {
            proof {
                assert(text@.subrange(7, len as int) =~= text@.skip(7));
            }
            text.substring_char(7, len).to_owned()
        };
        Some((time, rest))
    }
}

impl core::default::Default for TimePoint {
    /// A fresh entry with an empty label at the current time.
    fn default() -> (r: Self)
        ensures
            r.wf(),
            r.text@ == prefix_seq(r.time as int),
            label_part(r.text@).len() == 0,
    {
        let r = TimePoint::new("");
        proof {
            reveal_strlit("");
            assert(r.text@ =~= prefix_seq(r.time as int));
            lemma_display_round_trip(r.time as int, ""@);
            assert(prefix_seq(r.time as int) + ""@ =~= prefix_seq(r.time as int));
        }
        r
    }
}

/// A digit character carries its digit's value.
proof fn lemma_digit_round(d: int)
    requires
        0 <= d < 10,
    ensures
        is_digit(crate::strutil::digit_char(d)),
        digit_val(crate::strutil::digit_char(d)) == d,
{
}

/// Round trip: parsing a freshly built display text recovers the time to
/// the minute and the label exactly.
pub proof fn lemma_display_round_trip(time: int, label: Seq<char>)
    requires
        0 <= time < 1440,
    ensures
        parse_prefix_spec(prefix_seq(time) + label) == Some((time, label)),
        label_part(prefix_seq(time) + label) == label,
{
    let t = prefix_seq(time) + label;
    let h = time / 60;
    let m = time % 60;
    assert(0 <= h < 24 && 0 <= m < 60);
    lemma_digit_round(h / 10);
    lemma_digit_round(h % 10);
    lemma_digit_round(m / 10);
    lemma_digit_round(m % 10);
    assert(t[0] == '[');
    assert(t[1] == crate::strutil::digit_char(h / 10));
    assert(t[2] == crate::strutil::digit_char(h % 10));
    assert(t[3] == ':');
    assert(t[4] == crate::strutil::digit_char(m / 10));
    assert(t[5] == crate::strutil::digit_char(m % 10));
    assert(t[6] == ']');
    assert(t[7] == ' ');
    assert((h / 10) * 10 + h % 10 == h);
    assert((m / 10) * 10 + m % 10 == m);
    assert(h * 60 + m == time);
    assert(t.skip(8) =~= label);
}

} // verus!
