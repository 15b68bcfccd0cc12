//! Live NTP client state via `timedatectl`.
//!
//! mgmtd renders the timesyncd drop-in; orch owns the query surface. The
//! clients ask orch, so the `timedatectl` parsing lives in exactly one place.
//!
//! Parsing is defensive: three commands, each optional. `timedatectl show`
//! carries the enabled/synchronized flags, `show-timesync --all` the
//! machine-readable server, poll interval and last-reply timestamp, and
//! `timesync-status` the one field the machine-readable form omits: the clock
//! offset. A missing command or field leaves its value at zero rather than
//! failing the whole query, so a switch with timesyncd stopped still renders.

use vstd::prelude::*;

use crate::double;
use crate::natural::Natural;
use crate::text::{
    cat2, cut, cut_last, is_white, parse_decimal, same_text, split, strip_prefix, trim, trim_end_char,
    trim_start_char, words,
};

verus! {

// --------------------------------------------------------------- durations

/// The scanner of a systemd duration: the terms that are complete, and the
/// number and the unit that are being read.
#[verifier::ext_equal]
pub struct Scan {
    pub terms: Seq<(Seq<char>, Seq<char>)>,
    pub number: Seq<char>,
    pub unit: Seq<char>,
}

/// A decimal digit.
pub open spec fn is_ascii_digit(c: char) -> bool {
    '0' <= c <= '9'
}

/// One character further. A digit, or a dot inside a number, goes to the
/// number, and starts the next term where a unit was being read; white space
/// ends a term that has a number; the rest goes to the unit.
pub open spec fn scan_char(s: Scan, c: char) -> Scan {
    if is_ascii_digit(c) || (c == '.' && s.number.len() > 0 && s.unit.len() == 0) {
        if s.unit.len() > 0 {
            Scan {
                terms: s.terms.push((s.number, s.unit)),
                number: Seq::empty().push(c),
                unit: Seq::empty(),
            }
        } else {
            Scan { number: s.number.push(c), ..s }
        }
    } else if crate::text::is_space(c) {
        if s.number.len() > 0 {
            Scan {
                terms: s.terms.push((s.number, s.unit)),
                number: Seq::empty(),
                unit: Seq::empty(),
            }
        } else {
            s
        }
    } else {
        Scan { unit: s.unit.push(c), ..s }
    }
}

/// The scanner after the first `n` characters.
pub open spec fn scanned(text: Seq<char>, n: int) -> Scan
    decreases n,
{
    if n <= 0 {
        Scan { terms: Seq::empty(), number: Seq::empty(), unit: Seq::empty() }
    } else {
        scan_char(scanned(text, n - 1), text[n - 1])
    }
}

/// The (number, unit) terms of a duration: "8min 32s" is 8 of "min" and 32
/// of "s", with or without the space.
pub open spec fn duration_terms(text: Seq<char>) -> Seq<(Seq<char>, Seq<char>)> {
    let s = scanned(text, text.len() as int);
    if s.number.len() > 0 {
        s.terms.push((s.number, s.unit))
    } else {
        s.terms
    }
}

/// The microseconds of one unit.
pub open spec fn unit_usecs(unit: Seq<char>) -> Option<nat> {
    if unit == "us"@ || unit == "usec"@ || unit == "\u{b5}s"@ {
        Some(1)
    } else if unit == "ms"@ || unit == "msec"@ {
        Some(1_000)
    } else if unit == "s"@ || unit == "sec"@ || unit == ""@ {
        Some(1_000_000)
    } else if unit == "min"@ || unit == "m"@ {
        Some(60_000_000)
    } else if unit == "h"@ || unit == "hr"@ {
        Some(3_600_000_000)
    } else if unit == "d"@ || unit == "day"@ || unit == "days"@ {
        Some(86_400_000_000)
    } else {
        None
    }
}

/// What a decimal number is made of: its digits read as one integer, and how
/// many of them stand behind the dot. There is at most one dot, and at least
/// one digit.
pub open spec fn number_value(number: Seq<char>) -> Option<(nat, nat)> {
    let (digits, places) = match crate::text::cut_text(number, '.') {
        None => (number, 0nat),
        Some((whole, fraction)) => (whole + fraction, fraction.len()),
    };
    if digits.len() == 0 {
        None
    } else {
        match crate::text::digits_value(digits, 10) {
            Some(v) => Some((v as nat, places)),
            None => None,
        }
    }
}

/// What the first `n` terms add up to, in floating point. One with an unknown
/// unit, or without a number, adds nothing.
pub open spec fn terms_value(terms: Seq<(Seq<char>, Seq<char>)>, n: int) -> nat
    decreases n,
{
    if n <= 0 {
        0
    } else {
        let before = terms_value(terms, n - 1);
        match (number_value(terms[n - 1].0), unit_usecs(terms[n - 1].1)) {
            (Some((digits, places)), Some(scale)) => crate::double::sum(
                before,
                crate::double::product(crate::double::decimal_value(digits, places), scale),
            ),
            _ => before,
        }
    }
}

/// A duration in microseconds, rounded to the nearest. What is finite and no
/// `u64` holds reads as the largest; what is not finite reads as 0.
pub open spec fn usecs_of(text: Seq<char>) -> u64 {
    let terms = duration_terms(text);
    let total = terms_value(terms, terms.len() as int);
    if !crate::double::is_finite(total) {
        0
    } else if crate::double::nearest_whole(total) <= u64::MAX {
        crate::double::nearest_whole(total) as u64
    } else {
        u64::MAX
    }
}

fn read_number(number: &str) -> (r: Option<(Natural, usize)>)
    ensures
        match r {
            None => number_value(number@) is None,
            Some((digits, places)) => number_value(number@) == Some((digits@, places as nat)),
        },
{
    match cut(number, '.') {
        None => match read_digits(number) {
            Some(digits) => Some((digits, 0)),
            None => None,
        },
        Some((whole, fraction)) => {
            let places: usize = crate::text::chars_of(&fraction).len();
            match read_digits(&cat2(&whole, &fraction)) {
                Some(digits) => Some((digits, places)),
                None => None,
            }
        },
    }
}

/// The value of a run of digits; none if there is none, or a character is no
/// digit.
fn read_digits(text: &str) -> (r: Option<Natural>)
    ensures
        match r {
            Some(n) => text@.len() > 0 && crate::text::digits_value(text@, 10) == Some(n@ as int),
            None => text@.len() == 0 || crate::text::digits_value(text@, 10) is None,
        },
{
    let chars = crate::text::chars_of(text);
    if chars.len() == 0 {
        return None;
    }
    let mut n = Natural::of(0);
    let mut i: usize = 0;
    assert(text@.take(0) =~= Seq::<char>::empty());
    while i < chars.len()
        invariant
            i <= chars@.len(),
            chars@ == text@,
            crate::text::digits_value(text@.take(i as int), 10) == Some(n@ as int),
        decreases chars@.len() - i,
    {
        assert(text@.take(i + 1).drop_last() =~= text@.take(i as int));
        assert(text@.take(i + 1).last() == chars@[i as int]);
        match crate::text::digit_of(chars[i], 10) {
            None => {
                proof {
                    crate::text::lemma_digits_grow(text@, i + 1, 10);
                }
                return None;
            },
            Some(d) => {
                n.scale(10, d as u64);
            },
        }
        i = i + 1;
    }
    assert(text@.take(i as int) =~= text@);
    Some(n)
}

fn unit_scale(unit: &str) -> (r: Option<u64>)
    ensures
        match r {
            Some(n) => unit_usecs(unit@) == Some(n as nat) && 1 <= n <= 86_400_000_000,
            None => unit_usecs(unit@) is None,
        },
{
    if same_text(unit, "us") || same_text(unit, "usec") || same_text(unit, "\u{b5}s") {
        Some(1)
    } else if same_text(unit, "ms") || same_text(unit, "msec") {
        Some(1_000)
    } else if same_text(unit, "s") || same_text(unit, "sec") || same_text(unit, "") {
        Some(1_000_000)
    } else if same_text(unit, "min") || same_text(unit, "m") {
        Some(60_000_000)
    } else if same_text(unit, "h") || same_text(unit, "hr") {
        Some(3_600_000_000)
    } else if same_text(unit, "d") || same_text(unit, "day") || same_text(unit, "days") {
        Some(86_400_000_000)
    } else {
        None
    }
}

/// The terms of a scan as they are held.
pub open spec fn terms_view(terms: Seq<(String, String)>) -> Seq<(Seq<char>, Seq<char>)> {
    Seq::new(terms.len(), |i: int| (terms[i].0@, terms[i].1@))
}

fn read_terms(text: &str) -> (r: Vec<(String, String)>)
    ensures
        terms_view(r@) == duration_terms(text@),
{
    let chars = crate::text::chars_of(text);
    let mut terms: Vec<(String, String)> = Vec::new();
    let mut number = String::new();
    let mut unit = String::new();
    let mut number_len: usize = 0;
    let mut unit_len: usize = 0;
    let mut i: usize = 0;
    assert(terms_view(terms@) =~= Seq::empty());
    while i < chars.len()
        invariant
            i <= chars@.len(),
            chars@ == text@,
            number_len == number@.len(),
            unit_len == unit@.len(),
            number_len + unit_len <= i,
            (Scan { terms: terms_view(terms@), number: number@, unit: unit@ }) == scanned(
                text@,
                i as int,
            ),
        decreases chars@.len() - i,
    {
        let c: char = chars[i];
        let ghost had = terms_view(terms@);
        if ('0' <= c && c <= '9') || (c == '.' && number_len > 0 && unit_len == 0) {
            if unit_len > 0 {
                let ghost term = (number@, unit@);
                terms.push((number, unit));
                number = String::new();
                unit = String::new();
                number_len = 0;
                unit_len = 0;
                assert(terms_view(terms@) =~= had.push(term));
            }
            number.push(c);
            number_len = number_len + 1;
        } else if is_white(c) {
            if number_len > 0 {
                let ghost term = (number@, unit@);
                terms.push((number, unit));
                number = String::new();
                unit = String::new();
                number_len = 0;
                unit_len = 0;
                assert(terms_view(terms@) =~= had.push(term));
            }
        } else {
            unit.push(c);
            unit_len = unit_len + 1;
        }
        i = i + 1;
        assert((Scan { terms: terms_view(terms@), number: number@, unit: unit@ }) =~= scanned(
            text@,
            i as int,
        ));
    }
    if number_len > 0 {
        let ghost had = terms_view(terms@);
        let ghost term = (number@, unit@);
        terms.push((number, unit));
        assert(terms_view(terms@) =~= had.push(term));
    }
    terms
}

/// A systemd duration ("8min 32s", "1.204ms", "1us") in microseconds.
/// Terms with an unknown unit contribute nothing rather than poisoning
/// the total, so an unparsable field reads as zero, never as garbage.
pub fn parse_usecs(text: &str) -> (r: u64)
    ensures
        r == usecs_of(text@),
{
    let terms = read_terms(text);
    let ghost view = duration_terms(text@);
    let mut total = Natural::of(0);
    let mut i: usize = 0;
    while i < terms.len()
        invariant
            i <= terms@.len(),
            view == terms_view(terms@),
            total@ == terms_value(view, i as int),
        decreases terms@.len() - i,
    {
        assert(view[i as int] == (terms@[i as int].0@, terms@[i as int].1@));
        match (read_number(&terms[i].0), unit_scale(&terms[i].1)) {
            (Some((digits, places)), Some(scale)) => {
                let term = double::times(double::of_decimal(digits, places), scale);
                total = double::plus(total, &term);
            },
            _ => {},
        }
        i = i + 1;
    }
    match double::whole(total) {
        Some(n) => n,
        None => 0,
    }
}

/// A signed duration in microseconds.
pub open spec fn offset_of(text: Seq<char>) -> i64 {
    let (negative, rest) = if text.len() > 0 && text[0] == '-' {
        (true, text.skip(1))
    } else {
        (false, crate::text::trim_first(text, '+'))
    };
    let magnitude = if usecs_of(rest) <= i64::MAX {
        usecs_of(rest) as int
    } else {
        i64::MAX as int
    };
    if negative {
        -magnitude as i64
    } else {
        magnitude as i64
    }
}

/// A signed systemd duration, for the clock offset ("-412us").
pub fn parse_offset_usecs(text: &str) -> (r: i64)
    ensures
        r == offset_of(text@),
{
    proof {
        reveal_strlit("-");
        assert("-"@ =~= seq!['-']);
        assert(text@.len() > 0 && text@[0] == '-' ==> text@.take(1) =~= "-"@);
        assert(text@.len() > 0 && text@.take(1) == "-"@ ==> text@[0] == text@.take(1)[0]);
        assert(crate::text::begins_with(text@, "-"@) == (text@.len() > 0 && text@[0] == '-'));
    }
    match strip_prefix(text, "-") {
        Some(rest) => {
            let n: u64 = parse_usecs(&rest);
            if n <= i64::MAX as u64 {
                -(n as i64)
            } else {
                -i64::MAX
            }
        },
        None => {
            let n: u64 = parse_usecs(&trim_start_char(text, '+'));
            if n <= i64::MAX as u64 {
                n as i64
            } else {
                i64::MAX
            }
        },
    }
}

// ------------------------------------------------------------------ fields

/// What one command printed, as named values. A name that occurs again
/// replaces what was there.
#[derive(Debug)]
pub struct Fields {
    pub pairs: Vec<(String, String)>,
}

/// The value that stands last under a name, among the first `n`.
pub open spec fn value_of(
    pairs: Seq<(Seq<char>, Seq<char>)>,
    n: int,
    name: Seq<char>,
) -> Option<Seq<char>>
    decreases n,
{
    if n <= 0 {
        None
    } else if pairs[n - 1].0 == name {
        Some(pairs[n - 1].1)
    } else {
        value_of(pairs, n - 1, name)
    }
}

/// The view of an optional reference to a string.
pub open spec fn borrowed_text(v: Option<&String>) -> Option<Seq<char>> {
    match v {
        Some(s) => Some(s@),
        None => None,
    }
}

impl View for Fields {
    type V = Seq<(Seq<char>, Seq<char>)>;

    open spec fn view(&self) -> Seq<(Seq<char>, Seq<char>)> {
        terms_view(self.pairs@)
    }
}

impl Fields {
    /// The value under a name.
    pub open spec fn value(&self, name: Seq<char>) -> Option<Seq<char>> {
        value_of(self@, self@.len() as int, name)
    }

    pub fn get(&self, name: &str) -> (r: Option<&String>)
        ensures
            borrowed_text(r) == self.value(name@),
    {
        let mut i: usize = self.pairs.len();
        while i > 0
            invariant
                i <= self.pairs@.len(),
                self@.len() == self.pairs@.len(),
                self.value(name@) == value_of(self@, i as int, name@),
            decreases i,
        {
            i = i - 1;
            assert(self@[i as int] == (self.pairs@[i as int].0@, self.pairs@[i as int].1@));
            if same_text(&self.pairs[i].0, name) {
                return Some(&self.pairs[i].1);
            }
        }
        None
    }

    /// Does a name stand for `yes`?
    fn is_yes(&self, name: &str) -> (r: bool)
        ensures
            r == (self.value(name@) == Some("yes"@)),
    {
        match self.get(name) {
            Some(v) => same_text(v, "yes"),
            None => false,
        }
    }

    /// The duration under a name; 0 where there is none.
    fn usecs(&self, name: &str) -> (r: u64)
        ensures
            r == usecs_or_zero(self.value(name@)),
    {
        match self.get(name) {
            Some(v) => parse_usecs(v),
            None => 0,
        }
    }

    /// The number under a name; 0 where there is none.
    fn number(&self, name: &str) -> (r: u32)
        ensures
            r == number_or_zero(self.value(name@)),
    {
        match self.get(name) {
            Some(v) => small_number(v),
            None => 0,
        }
    }
}

/// The named value of one line: what comes before the separator and what
/// comes after it, trimmed.
pub open spec fn pair_of(line: Seq<char>, separator: char) -> Option<(Seq<char>, Seq<char>)> {
    match crate::text::cut_text(line, separator) {
        Some((name, value)) => Some((crate::text::trim_text(name), crate::text::trim_text(value))),
        None => None,
    }
}

/// The named values of the first `n` lines. A line without the separator has
/// none.
pub open spec fn pairs_of(
    lines: Seq<Seq<char>>,
    separator: char,
    n: int,
) -> Seq<(Seq<char>, Seq<char>)>
    decreases n,
{
    if n <= 0 {
        Seq::empty()
    } else {
        match pair_of(lines[n - 1], separator) {
            Some(p) => pairs_of(lines, separator, n - 1).push(p),
            None => pairs_of(lines, separator, n - 1),
        }
    }
}

/// The named values of a text's lines.
pub open spec fn fields_of(text: Seq<char>, separator: char) -> Seq<(Seq<char>, Seq<char>)> {
    let lines = crate::text::split_text(text, '\n');
    pairs_of(lines, separator, lines.len() as int)
}

/// The named values of a list of lines or entries.
fn read_pairs(lines: &Vec<String>, separator: char) -> (r: Fields)
    ensures
        r@ == pairs_of(lines.deep_view(), separator, lines@.len() as int),
{
    let mut pairs: Vec<(String, String)> = Vec::new();
    let mut i: usize = 0;
    assert(terms_view(pairs@) =~= Seq::empty());
    while i < lines.len()
        invariant
            i <= lines@.len(),
            terms_view(pairs@) == pairs_of(lines.deep_view(), separator, i as int),
        decreases lines@.len() - i,
    {
        assert(lines.deep_view()[i as int] == lines@[i as int]@);
        let ghost had = terms_view(pairs@);
        match cut(&lines[i], separator) {
            Some((name, value)) => {
                let name = trim(&name);
                let value = trim(&value);
                let ghost pair = (name@, value@);
                pairs.push((name, value));
                assert(terms_view(pairs@) =~= had.push(pair));
            },
            None => {},
        }
        i = i + 1;
    }
    Fields { pairs }
}

/// `Key=value` lines into a lookup (the `show`/`show-timesync` form).
pub fn properties(text: &str) -> (r: Fields)
    ensures
        r@ == fields_of(text@, '='),
{
    let lines = split(text, '\n');
    read_pairs(&lines, '=')
}

/// `Label: value` lines into a lookup (the `timesync-status` form).
pub fn labels(text: &str) -> (r: Fields)
    ensures
        r@ == fields_of(text@, ':'),
{
    let lines = split(text, '\n');
    read_pairs(&lines, ':')
}

/// The value that stands first under a name, from the `n`th on.
pub open spec fn first_value(
    pairs: Seq<(Seq<char>, Seq<char>)>,
    n: int,
    name: Seq<char>,
) -> Option<Seq<char>>
    decreases pairs.len() - n,
{
    if n >= pairs.len() {
        None
    } else if pairs[n].0 == name {
        Some(pairs[n].1)
    } else {
        first_value(pairs, n + 1, name)
    }
}

/// One field of a `{ Leap=0, ..., Stratum=3, ... }` message.
pub open spec fn message_field(message: Seq<char>, field: Seq<char>) -> Option<Seq<char>> {
    let inner = crate::text::trim_last(crate::text::trim_first(message, '{'), '}');
    let entries = crate::text::split_text(inner, ',');
    first_value(pairs_of(entries, '=', entries.len() as int), 0, field)
}

/// One `NTPMessage={ Leap=0, ..., Stratum=3, ... }` field.
pub fn ntp_message_field(message: &str, field: &str) -> (r: Option<String>)
    ensures
        crate::text::option_text(r) == message_field(message@, field@),
{
    let inner = trim_end_char(&trim_start_char(message, '{'), '}');
    let entries = split(&inner, ',');
    let fields = read_pairs(&entries, '=');
    let mut i: usize = 0;
    while i < fields.pairs.len()
        invariant
            i <= fields.pairs@.len(),
            fields@.len() == fields.pairs@.len(),
            message_field(message@, field@) == first_value(fields@, i as int, field@),
        decreases fields.pairs@.len() - i,
    {
        assert(fields@[i as int] == (fields.pairs@[i as int].0@, fields.pairs@[i as int].1@));
        if same_text(&fields.pairs[i].0, field) {
            return Some(fields.pairs[i].1.clone());
        }
        i = i + 1;
    }
    None
}

// -------------------------------------------------------------- timestamps

/// The form of a date and time that systemd prints.
pub open spec fn stamp_format() -> Seq<char> {
    "%Y-%m-%d %H:%M:%S"@
}

/// What `chrono::NaiveDateTime::parse_from_str` reads out of a text in a
/// format, as UTC: the seconds since the epoch, and the nanoseconds behind
/// them (a thousand million and more in a leap second).
pub uninterp spec fn moment_of(text: Seq<char>, format: Seq<char>) -> Option<(i64, u32)>;

/// Reads a date and time with `chrono::NaiveDateTime::parse_from_str` and
/// takes it as UTC. The result is a function of the text and the format;
/// which texts a format admits is chrono's to say.
#[verifier::external_body]
fn read_moment(text: &str, format: &str) -> (r: Option<(i64, u32)>)
    ensures
        r == moment_of(text@, format@),
{
    match chrono::NaiveDateTime::parse_from_str(text, format) {
        Ok(at) => Some((at.and_utc().timestamp(), at.and_utc().timestamp_subsec_nanos())),
        Err(_) => None,
    }
}

/// What the difference of two `chrono::DateTime<Utc>` values comes to, in
/// whole seconds; `None` where a pair of numbers names no such value.
pub uninterp spec fn moments_apart(
    now_secs: i64,
    now_nanos: u32,
    then_secs: i64,
    then_nanos: u32,
) -> Option<i64>;

/// A moment of the years 1970 to 9999, outside a leap second.
pub open spec fn ordinary(secs: i64, nanos: u32) -> bool {
    0 <= secs <= 253_402_300_799 && nanos < 1_000_000_000
}

/// The whole seconds in a number of nanoseconds, rounded towards zero.
pub open spec fn whole_seconds(nanos: int) -> int {
    if nanos >= 0 {
        nanos / 1_000_000_000
    } else {
        -((-nanos) / 1_000_000_000)
    }
}

/// The whole seconds from one moment to another: `chrono::DateTime`'s
/// subtraction, then `TimeDelta::num_seconds`. Outside leap seconds, and up to
/// the year 9999, that is the difference rounded towards zero.
#[verifier::external_body]
fn seconds_between(now: (i64, u32), then: (i64, u32)) -> (r: Option<i64>)
    ensures
        r == moments_apart(now.0, now.1, then.0, then.1),
        ordinary(now.0, now.1) && ordinary(then.0, then.1) ==> r == Some(
            whole_seconds((now.0 - then.0) * 1_000_000_000 + now.1 - then.1) as i64,
        ),
{
    let now = chrono::DateTime::from_timestamp(now.0, now.1)?;
    let then = chrono::DateTime::from_timestamp(then.0, then.1)?;
    Some((now - then).num_seconds())
}

/// The date and time in a stamp: without the weekday in front, and with the
/// zone behind it, which has to be UTC.
pub open spec fn stamp_text(stamp: Seq<char>) -> Option<Seq<char>> {
    let rest = match crate::text::cut_text(stamp, ' ') {
        Some((day, rest)) => rest,
        None => stamp,
    };
    match crate::text::cut_last_text(rest, ' ') {
        Some((datetime, zone)) => if zone == "UTC"@ {
            Some(crate::text::trim_text(datetime))
        } else {
            None
        },
        None => None,
    }
}

/// The date and time in a stamp such as "Sat 2026-08-24 21:14:07 UTC".
pub fn stamp_body(stamp: &str) -> (r: Option<String>)
    ensures
        crate::text::option_text(r) == stamp_text(stamp@),
{
    // Drop the weekday, keep "<date> <time> <zone>".
    let rest = match cut(stamp, ' ') {
        Some((day, rest)) => rest,
        None => stamp.to_owned(),
    };
    match cut_last(&rest, ' ') {
        Some((datetime, zone)) => {
            // Only UTC timestamps are unambiguous without a tz database,
            // which is why the commands run with TZ=UTC.
            if same_text(&zone, "UTC") {
                Some(trim(&datetime))
            } else {
                None
            }
        },
        None => None,
    }
}

/// A difference as an age: a moment still to come has none.
pub open spec fn age_of(seconds: Option<i64>) -> Option<u64> {
    match seconds {
        Some(n) => if n >= 0 {
            Some(n as u64)
        } else {
            None
        },
        None => None,
    }
}

/// A difference as an age.
pub fn as_age(seconds: Option<i64>) -> (r: Option<u64>)
    ensures
        r == age_of(seconds),
{
    match seconds {
        Some(n) => if n >= 0 {
            Some(n as u64)
        } else {
            None
        },
        None => None,
    }
}

/// How old a stamp is.
pub open spec fn stamp_age(stamp: Seq<char>, now_secs: i64, now_nanos: u32) -> Option<u64> {
    match stamp_text(stamp) {
        Some(text) => match moment_of(text, stamp_format()) {
            Some(then) => age_of(moments_apart(now_secs, now_nanos, then.0, then.1)),
            None => None,
        },
        None => None,
    }
}

/// Seconds between an RFC-ish systemd timestamp ("Sat 2026-08-24
/// 21:14:07 UTC") and now (the seconds since the epoch, and the nanoseconds
/// behind them). None when it cannot be read.
pub fn secs_since(stamp: &str, now: (i64, u32)) -> (r: Option<u64>)
    ensures
        r == stamp_age(stamp@, now.0, now.1),
{
    match stamp_body(stamp) {
        Some(text) => match read_moment(&text, "%Y-%m-%d %H:%M:%S") {
            Some(then) => as_age(seconds_between(now, then)),
            None => None,
        },
        None => None,
    }
}

// ------------------------------------------------------------------- state

/// The NTP client's state.
#[derive(Debug)]
pub struct NtpState {
    pub enabled: bool,
    pub synchronized: bool,
    pub servers: Vec<String>,
    pub server: String,
    pub stratum: u32,
    pub poll_interval_secs: u32,
    pub delay_usecs: u64,
    pub jitter_usecs: u64,
    pub offset_usecs: i64,
    pub last_sync_secs_ago: Option<u64>,
}

/// The NTP client's state as mathematical values.
#[verifier::ext_equal]
pub struct NtpModel {
    pub enabled: bool,
    pub synchronized: bool,
    pub servers: Seq<Seq<char>>,
    pub server: Seq<char>,
    pub stratum: u32,
    pub poll_interval_secs: u32,
    pub delay_usecs: u64,
    pub jitter_usecs: u64,
    pub offset_usecs: i64,
    pub last_sync_secs_ago: Option<u64>,
}

impl View for NtpState {
    type V = NtpModel;

    open spec fn view(&self) -> NtpModel {
        NtpModel {
            enabled: self.enabled,
            synchronized: self.synchronized,
            servers: self.servers.deep_view(),
            server: self.server@,
            stratum: self.stratum,
            poll_interval_secs: self.poll_interval_secs,
            delay_usecs: self.delay_usecs,
            jitter_usecs: self.jitter_usecs,
            offset_usecs: self.offset_usecs,
            last_sync_secs_ago: self.last_sync_secs_ago,
        }
    }
}

pub open spec fn usecs_or_zero(v: Option<Seq<char>>) -> u64 {
    match v {
        Some(text) => usecs_of(text),
        None => 0,
    }
}

pub open spec fn number_or_zero(v: Option<Seq<char>>) -> u32 {
    match v {
        Some(text) => match crate::text::unsigned_upto(text, 10, u32::MAX as int) {
            Some(n) => n as u32,
            None => 0,
        },
        None => 0,
    }
}

fn small_number(text: &str) -> (r: u32)
    ensures
        r == number_or_zero(Some(text@)),
{
    match parse_decimal(text, u32::MAX as u64) {
        Some(n) => n as u32,
        None => 0,
    }
}

/// The value under a name in what a command printed; `None` where the
/// command printed nothing.
pub open spec fn printed(
    text: Option<Seq<char>>,
    separator: char,
    name: Seq<char>,
) -> Option<Seq<char>> {
    match text {
        Some(t) => value_of(
            fields_of(t, separator),
            fields_of(t, separator).len() as int,
            name,
        ),
        None => None,
    }
}

/// The field of the last reply that `show-timesync` printed.
pub open spec fn reply_field(timesync: Option<Seq<char>>, field: Seq<char>) -> Option<Seq<char>> {
    match printed(timesync, '=', "NTPMessage"@) {
        Some(message) => message_field(message, field),
        None => None,
    }
}

/// A value, and where it is zero another in its place.
pub open spec fn or_else(first: u64, second: u64) -> u64 {
    if first != 0 {
        first
    } else {
        second
    }
}

/// The servers that `show-timesync` lists.
pub open spec fn listed_servers(timesync: Option<Seq<char>>) -> Seq<Seq<char>> {
    match printed(timesync, '=', "SystemNTPServers"@) {
        Some(list) => crate::text::words_of(list),
        None => Seq::empty(),
    }
}

/// The server in use: the configured spelling where there is one, else the
/// address it resolved to.
pub open spec fn server_of(timesync: Option<Seq<char>>) -> Seq<char> {
    let name = printed(timesync, '=', "ServerName"@);
    let address = printed(timesync, '=', "ServerAddress"@);
    if name is Some && name->0.len() > 0 {
        name->0
    } else if address is Some {
        address->0
    } else {
        Seq::empty()
    }
}

/// The seconds between polls; 0 where no `u32` holds them.
pub open spec fn poll_secs(timesync: Option<Seq<char>>) -> u32 {
    let secs = usecs_or_zero(printed(timesync, '=', "PollIntervalUSec"@)) / 1_000_000;
    if secs <= u32::MAX {
        secs as u32
    } else {
        0
    }
}

/// The state that the three commands' output and the age of the last reply
/// make. The offset is the one field only the human-readable form carries;
/// delay, jitter and stratum come from there where the reply has none.
pub open spec fn state_model(
    show: Option<Seq<char>>,
    timesync: Option<Seq<char>>,
    status: Option<Seq<char>>,
    age: Option<u64>,
) -> NtpModel {
    NtpModel {
        enabled: printed(show, '=', "NTP"@) == Some("yes"@),
        synchronized: printed(show, '=', "NTPSynchronized"@) == Some("yes"@),
        servers: listed_servers(timesync),
        server: server_of(timesync),
        poll_interval_secs: poll_secs(timesync),
        stratum: or_else(
            number_or_zero(reply_field(timesync, "Stratum"@)) as u64,
            number_or_zero(printed(status, ':', "Stratum"@)) as u64,
        ) as u32,
        delay_usecs: or_else(
            usecs_or_zero(reply_field(timesync, "RootDelay"@)),
            usecs_or_zero(printed(status, ':', "Delay"@)),
        ),
        jitter_usecs: or_else(
            usecs_or_zero(reply_field(timesync, "Jitter"@)),
            usecs_or_zero(printed(status, ':', "Jitter"@)),
        ),
        offset_usecs: match printed(status, ':', "Offset"@) {
            Some(text) => offset_of(text),
            None => 0,
        },
        last_sync_secs_ago: age,
    }
}

/// The stamp of the last reply.
pub fn last_reply(timesync: &Option<String>) -> (r: Option<String>)
    ensures
        crate::text::option_text(r) == reply_field(
            crate::text::option_text(*timesync),
            "DestinationTimestamp"@,
        ),
{
    match timesync {
        Some(text) => match properties(text).get("NTPMessage") {
            Some(message) => ntp_message_field(message, "DestinationTimestamp"),
            None => None,
        },
        None => None,
    }
}

fn reply_usecs(message: &str, field: &str) -> (r: u64)
    ensures
        r == usecs_or_zero(message_field(message@, field@)),
{
    match ntp_message_field(message, field) {
        Some(v) => parse_usecs(&v),
        None => 0,
    }
}

/// The state that the three commands' output and the age of the last reply
/// make.
pub fn state_from(
    show: &Option<String>,
    timesync: &Option<String>,
    status: &Option<String>,
    age: Option<u64>,
) -> (r: NtpState)
    ensures
        r@ == state_model(
            crate::text::option_text(*show),
            crate::text::option_text(*timesync),
            crate::text::option_text(*status),
            age,
        ),
{
    let mut state = NtpState {
        enabled: false,
        synchronized: false,
        servers: Vec::new(),
        server: String::new(),
        stratum: 0,
        poll_interval_secs: 0,
        delay_usecs: 0,
        jitter_usecs: 0,
        offset_usecs: 0,
        last_sync_secs_ago: age,
    };
    assert(state.servers.deep_view() =~= Seq::empty());
    assert(state.server@ =~= Seq::empty());
    if let Some(text) = show {
        let props = properties(text);
        state.enabled = props.is_yes("NTP");
        state.synchronized = props.is_yes("NTPSynchronized");
    }
    if let Some(text) = timesync {
        let props = properties(text);
        if let Some(list) = props.get("SystemNTPServers") {
            state.servers = words(list);
        }
        // The name is what was configured; the address is what it
        // resolved to. Show the configured spelling when there is one.
        let named: bool = match props.get("ServerName") {
            Some(name) => !name.as_str().is_empty(),
            None => false,
        };
        let server = if named {
            props.get("ServerName")
        } else {
            props.get("ServerAddress")
        };
        if let Some(name) = server {
            state.server = name.clone();
        }
        let secs: u64 = props.usecs("PollIntervalUSec") / 1_000_000;
        if secs <= u32::MAX as u64 {
            state.poll_interval_secs = secs as u32;
        }
        if let Some(message) = props.get("NTPMessage") {
            state.stratum = match ntp_message_field(message, "Stratum") {
                Some(v) => small_number(&v),
                None => 0,
            };
            state.delay_usecs = reply_usecs(message, "RootDelay");
            state.jitter_usecs = reply_usecs(message, "Jitter");
        }
    }
    // The offset is the one field only the human-readable form carries.
    if let Some(text) = status {
        let fields = labels(text);
        if let Some(offset) = fields.get("Offset") {
            state.offset_usecs = parse_offset_usecs(offset);
        }
        // Delay and jitter come from here too when the NTPMessage
        // parse found nothing (older systemd spells them differently).
        if state.delay_usecs == 0 {
            state.delay_usecs = fields.usecs("Delay");
        }
        if state.jitter_usecs == 0 {
            state.jitter_usecs = fields.usecs("Jitter");
        }
        if state.stratum == 0 {
            state.stratum = fields.number("Stratum");
        }
    }
    let ghost goal = state_model(
        crate::text::option_text(*show),
        crate::text::option_text(*timesync),
        crate::text::option_text(*status),
        age,
    );
    assert(state.enabled == goal.enabled);
    assert(state.synchronized == goal.synchronized);
    assert(state.servers.deep_view() == goal.servers);
    assert(state.server@ == goal.server);
    assert(state.stratum == goal.stratum);
    assert(state.poll_interval_secs == goal.poll_interval_secs);
    assert(state.delay_usecs == goal.delay_usecs);
    assert(state.jitter_usecs == goal.jitter_usecs);
    assert(state.offset_usecs == goal.offset_usecs);
    state
}

/// The NTP client's state for `show ntp`, from what `timedatectl show --all`,
/// `show-timesync --all` and `timesync-status` printed (`None` for a command
/// that failed) and the time.
pub fn ntp_state(
    show: &Option<String>,
    timesync: &Option<String>,
    status: &Option<String>,
    now: (i64, u32),
) -> (r: NtpState)
    ensures
        r@ == state_model(
            crate::text::option_text(*show),
            crate::text::option_text(*timesync),
            crate::text::option_text(*status),
            match reply_field(crate::text::option_text(*timesync), "DestinationTimestamp"@) {
                Some(stamp) => stamp_age(stamp, now.0, now.1),
                None => None,
            },
        ),
{
    let age: Option<u64> = match last_reply(timesync) {
        Some(stamp) => secs_since(&stamp, now),
        None => None,
    };
    state_from(show, timesync, status, age)
}

// -------------------------------------------------------------------- laws

/// A minus sign turns an offset round: what leads by some time and what lags
/// by it differ in the sign alone.
pub proof fn lemma_offsets_keep_their_sign(text: Seq<char>)
    requires
        text.len() > 0 ==> text[0] != '-' && text[0] != '+',
    ensures
        offset_of(seq!['-'] + text) == -offset_of(text),
        offset_of(seq!['+'] + text) == offset_of(text),
        offset_of(text) >= 0,
{
    assert((seq!['-'] + text).skip(1) =~= text);
    assert((seq!['+'] + text).skip(1) =~= text);
    assert(crate::text::trim_first(seq!['+'] + text, '+') == crate::text::trim_first(text, '+'));
}

/// Terms with an unknown unit contribute nothing: the total is that of the
/// other terms.
pub proof fn lemma_unknown_units_add_nothing(terms: Seq<(Seq<char>, Seq<char>)>, n: int)
    requires
        0 < n <= terms.len(),
        unit_usecs(terms[n - 1].1) is None,
    ensures
        terms_value(terms, n) == terms_value(terms, n - 1),
{
}

/// Texts that agree on their first `n` characters scan alike so far.
proof fn lemma_scan_prefix(a: Seq<char>, b: Seq<char>, n: int)
    requires
        n <= a.len(),
        n <= b.len(),
        forall|i: int| 0 <= i < n ==> a[i] == b[i],
    ensures
        scanned(a, n) == scanned(b, n),
    decreases n,
{
    if n > 0 {
        lemma_scan_prefix(a, b, n - 1);
    }
}

/// A scan with terms read before it.
spec fn behind(terms: Seq<(Seq<char>, Seq<char>)>, s: Scan) -> Scan {
    Scan { terms: terms + s.terms, number: s.number, unit: s.unit }
}

/// Once the scan of a text's rest stands as the scan of that rest alone does,
/// it goes on so.
proof fn lemma_scan_on(
    text: Seq<char>,
    rest: Seq<char>,
    terms: Seq<(Seq<char>, Seq<char>)>,
    from: int,
    k: int,
)
    requires
        0 <= from <= k <= rest.len(),
        rest.len() <= text.len(),
        text.skip(text.len() - rest.len()) == rest,
        scanned(text, text.len() - rest.len() + from) == behind(terms, scanned(rest, from)),
    ensures
        scanned(text, text.len() - rest.len() + k) == behind(terms, scanned(rest, k)),
    decreases k,
{
    if k > from {
        lemma_scan_on(text, rest, terms, from, k - 1);
        let at = text.len() - rest.len() + k;
        let c = text.skip(text.len() - rest.len())[k - 1];
        assert(text[at - 1] == c);
        let s = scanned(rest, k - 1);
        assert(terms + s.terms.push((s.number, s.unit)) =~= (terms + s.terms).push(
            (s.number, s.unit),
        ));
        assert(scan_char(behind(terms, s), c) == behind(terms, scan_char(s, c)));
    }
}

/// A text ends in a number, and maybe a unit.
pub open spec fn ends_in_term(text: Seq<char>) -> bool {
    scanned(text, text.len() as int).number.len() > 0
}

/// A text ends in a number with a unit.
pub open spec fn ends_in_unit(text: Seq<char>) -> bool {
    ends_in_term(text) && scanned(text, text.len() as int).unit.len() > 0
}

/// Behind white space a term starts anew.
proof fn lemma_terms_spaced(a: Seq<char>, b: Seq<char>)
    requires
        ends_in_term(a),
    ensures
        duration_terms(a + seq![' '] + b) == duration_terms(a) + duration_terms(b),
{
    let text = a + seq![' '] + b;
    let s = scanned(a, a.len() as int);
    let terms = s.terms.push((s.number, s.unit));
    lemma_scan_prefix(text, a, a.len() as int);
    assert(text[a.len() as int] == ' ');
    assert(text.skip(text.len() - b.len()) =~= b);
    assert(scanned(text, a.len() as int + 1) =~= behind(terms, scanned(b, 0)));
    lemma_scan_on(text, b, terms, 0, b.len() as int);
    assert(duration_terms(text) =~= terms + duration_terms(b));
}

/// Behind a unit a digit starts the next term.
proof fn lemma_terms_joined(a: Seq<char>, b: Seq<char>)
    requires
        ends_in_unit(a),
        b.len() > 0,
        is_ascii_digit(b[0]),
    ensures
        duration_terms(a + b) == duration_terms(a) + duration_terms(b),
{
    let text = a + b;
    let s = scanned(a, a.len() as int);
    let terms = s.terms.push((s.number, s.unit));
    lemma_scan_prefix(text, a, a.len() as int);
    assert(text[a.len() as int] == b[0]);
    assert(text.skip(text.len() - b.len()) =~= b);
    reveal_with_fuel(scanned, 2);
    assert(scanned(b, 1) == Scan {
        terms: Seq::empty(),
        number: Seq::empty().push(b[0]),
        unit: Seq::empty(),
    });
    assert(scanned(text, a.len() as int + 1) =~= behind(terms, scanned(b, 1)));
    lemma_scan_on(text, b, terms, 1, b.len() as int);
    assert(duration_terms(text) =~= terms + duration_terms(b));
}

/// Terms with an unknown unit behind others leave the total alone.
proof fn lemma_unknown_behind(
    x: Seq<(Seq<char>, Seq<char>)>,
    y: Seq<(Seq<char>, Seq<char>)>,
    n: int,
)
    requires
        0 <= n <= y.len(),
        forall|i: int| 0 <= i < y.len() ==> unit_usecs((#[trigger] y[i]).1) is None,
    ensures
        terms_value(x + y, x.len() + n) == terms_value(x, x.len() as int),
    decreases n,
{
    if n > 0 {
        lemma_unknown_behind(x, y, n - 1);
        assert((x + y)[x.len() + n - 1] == y[n - 1]);
    } else {
        lemma_values_prefix(x + y, x, x.len() as int);
    }
}

proof fn lemma_values_prefix(
    x: Seq<(Seq<char>, Seq<char>)>,
    y: Seq<(Seq<char>, Seq<char>)>,
    n: int,
)
    requires
        n <= x.len(),
        n <= y.len(),
        forall|i: int| 0 <= i < n ==> x[i] == y[i],
    ensures
        terms_value(x, n) == terms_value(y, n),
    decreases n,
{
    if n > 0 {
        lemma_values_prefix(x, y, n - 1);
    }
}

/// Digits, at least one of them.
pub open spec fn is_integer(s: Seq<char>) -> bool {
    s.len() > 0 && forall|i: int| 0 <= i < s.len() ==> is_ascii_digit(#[trigger] s[i])
}

proof fn lemma_integer_value(s: Seq<char>)
    requires
        is_integer(s),
    ensures
        crate::text::digits_value(s, 10) matches Some(v) && v >= 0 && number_value(s) == Some(
            (v as nat, 0nat),
        ),
{
    lemma_digits_are_some(s);
    crate::text::lemma_first_at(s, '.');
    if let Some(i) = crate::text::first_at(s, '.') {
        assert(is_ascii_digit(s[i]));
    }
}

proof fn lemma_digits_are_some(s: Seq<char>)
    requires
        forall|i: int| 0 <= i < s.len() ==> is_ascii_digit(#[trigger] s[i]),
    ensures
        crate::text::digits_value(s, 10) matches Some(v) && v >= 0,
    decreases s.len(),
{
    if s.len() > 0 {
        let front = s.drop_last();
        assert forall|i: int| 0 <= i < front.len() implies is_ascii_digit(#[trigger] front[i]) by {
            assert(front[i] == s[i]);
        }
        lemma_digits_are_some(front);
        assert(is_ascii_digit(s[s.len() - 1]));
    }
}

/// Every number of some terms is an integer.
pub open spec fn whole_terms(terms: Seq<(Seq<char>, Seq<char>)>) -> bool {
    forall|i: int| 0 <= i < terms.len() ==> is_integer((#[trigger] terms[i]).0)
}

/// The microseconds of a term whose number is an integer.
pub open spec fn whole_usecs(term: (Seq<char>, Seq<char>)) -> int {
    match (crate::text::digits_value(term.0, 10), unit_usecs(term.1)) {
        (Some(v), Some(scale)) => v * scale,
        _ => 0,
    }
}

/// The microseconds of the first `n` terms, whose numbers are integers.
pub open spec fn all_usecs(terms: Seq<(Seq<char>, Seq<char>)>, n: int) -> int
    decreases n,
{
    if n <= 0 {
        0
    } else {
        all_usecs(terms, n - 1) + whole_usecs(terms[n - 1])
    }
}

proof fn lemma_all_usecs_add(
    x: Seq<(Seq<char>, Seq<char>)>,
    y: Seq<(Seq<char>, Seq<char>)>,
    n: int,
)
    requires
        0 <= n <= y.len(),
    ensures
        all_usecs(x + y, x.len() + n) == all_usecs(x, x.len() as int) + all_usecs(y, n),
    decreases n,
{
    if n > 0 {
        lemma_all_usecs_add(x, y, n - 1);
        assert((x + y)[x.len() + n - 1] == y[n - 1]);
    } else {
        lemma_all_usecs_prefix(x + y, x, x.len() as int);
    }
}

proof fn lemma_all_usecs_prefix(
    x: Seq<(Seq<char>, Seq<char>)>,
    y: Seq<(Seq<char>, Seq<char>)>,
    n: int,
)
    requires
        n <= x.len(),
        n <= y.len(),
        forall|i: int| 0 <= i < n ==> x[i] == y[i],
    ensures
        all_usecs(x, n) == all_usecs(y, n),
    decreases n,
{
    if n > 0 {
        lemma_all_usecs_prefix(x, y, n - 1);
    }
}

proof fn lemma_whole_usecs_nonneg(term: (Seq<char>, Seq<char>))
    requires
        is_integer(term.0),
    ensures
        whole_usecs(term) >= 0,
        unit_usecs(term.1) is Some ==> whole_usecs(term) >= crate::text::digits_value(term.0, 10)->0,
{
    lemma_integer_value(term.0);
    let v = crate::text::digits_value(term.0, 10)->0;
    if let Some(scale) = unit_usecs(term.1) {
        assert(v * scale >= v) by (nonlinear_arith)
            requires
                v >= 0,
                scale >= 1,
        ;
    }
}

/// Nothing is rounded while all integers of microseconds have their number.
proof fn lemma_whole_value(terms: Seq<(Seq<char>, Seq<char>)>, n: int)
    requires
        0 <= n <= terms.len(),
        whole_terms(terms),
        all_usecs(terms, n) <= crate::double::PRECISION,
    ensures
        all_usecs(terms, n) >= 0,
        terms_value(terms, n) == all_usecs(terms, n) * crate::double::two_to(1074),
    decreases n,
{
    let one = crate::double::two_to(1074);
    if n <= 0 {
        assert(0 * one == 0) by (nonlinear_arith);
    } else {
        let term = terms[n - 1];
        assert(is_integer(terms[n - 1].0));
        lemma_whole_usecs_nonneg(term);
        lemma_integer_value(term.0);
        lemma_whole_value(terms, n - 1);
        let before = all_usecs(terms, n - 1);
        let v = crate::text::digits_value(term.0, 10)->0;
        match unit_usecs(term.1) {
            Some(scale) => {
                let part = v * scale;
                assert(crate::double::ten_to(0) == 1);
                crate::double::lemma_short_is_exact(v as nat, 1074);
                assert((v * one) * scale == part * one) by (nonlinear_arith)
                    requires
                        part == v * scale,
                ;
                crate::double::lemma_short_is_exact(part as nat, 1074);
                assert(before * one + part * one == (before + part) * one) by (nonlinear_arith);
                crate::double::lemma_short_is_exact((before + part) as nat, 1074);
            },
            None => {},
        }
    }
}

/// A duration of whole terms: integers directly followed by units, with or
/// without white space between the terms.
pub open spec fn is_duration(text: Seq<char>) -> bool {
    &&& text.len() > 0
    &&& is_ascii_digit(text[0])
    &&& ends_in_unit(text)
    &&& whole_terms(duration_terms(text))
}

/// The microseconds that a duration of whole terms names.
pub open spec fn named_usecs(text: Seq<char>) -> int {
    all_usecs(duration_terms(text), duration_terms(text).len() as int)
}

/// A duration of whole terms is read exactly, up to two to the power of 53
/// microseconds.
pub proof fn lemma_whole_durations_are_exact(text: Seq<char>)
    requires
        whole_terms(duration_terms(text)),
        named_usecs(text) <= crate::double::PRECISION,
    ensures
        usecs_of(text) == named_usecs(text),
{
    let terms = duration_terms(text);
    lemma_whole_value(terms, terms.len() as int);
    crate::double::lemma_integers_read_back(named_usecs(text) as nat);
}

/// Durations written one behind the other add up, with or without white space
/// between them and in either order. From two to the power of 53 microseconds
/// on a sum may be rounded.
pub proof fn lemma_durations_add_up(a: Seq<char>, b: Seq<char>)
    requires
        is_duration(a),
        is_duration(b),
        named_usecs(a) + named_usecs(b) <= crate::double::PRECISION,
    ensures
        usecs_of(a + seq![' '] + b) == usecs_of(a) + usecs_of(b),
        usecs_of(a + b) == usecs_of(a) + usecs_of(b),
        usecs_of(b + seq![' '] + a) == usecs_of(a) + usecs_of(b),
        usecs_of(b + a) == usecs_of(a) + usecs_of(b),
{
    let x = duration_terms(a);
    let y = duration_terms(b);
    lemma_terms_spaced(a, b);
    lemma_terms_joined(a, b);
    lemma_terms_spaced(b, a);
    lemma_terms_joined(b, a);
    lemma_all_usecs_add(x, y, y.len() as int);
    lemma_all_usecs_add(y, x, x.len() as int);
    lemma_all_usecs_nonneg(x, x.len() as int);
    lemma_all_usecs_nonneg(y, y.len() as int);
    lemma_whole_durations_are_exact(a);
    lemma_whole_durations_are_exact(b);
    lemma_whole_durations_are_exact(a + seq![' '] + b);
    lemma_whole_durations_are_exact(a + b);
    lemma_whole_durations_are_exact(b + seq![' '] + a);
    lemma_whole_durations_are_exact(b + a);
}

proof fn lemma_all_usecs_nonneg(terms: Seq<(Seq<char>, Seq<char>)>, n: int)
    requires
        0 <= n <= terms.len(),
        whole_terms(terms),
    ensures
        all_usecs(terms, n) >= 0,
    decreases n,
{
    if n > 0 {
        lemma_all_usecs_nonneg(terms, n - 1);
        assert(is_integer(terms[n - 1].0));
        lemma_whole_usecs_nonneg(terms[n - 1]);
    }
}

/// A text whose terms all have an unknown unit adds nothing to a duration it
/// stands behind, and is nothing by itself.
pub proof fn lemma_unknown_durations_are_nothing(a: Seq<char>, u: Seq<char>)
    requires
        ends_in_term(a),
        forall|i: int|
            0 <= i < duration_terms(u).len() ==> unit_usecs((#[trigger] duration_terms(u)[i]).1)
                is None,
    ensures
        usecs_of(a + seq![' '] + u) == usecs_of(a),
        usecs_of(u) == 0,
{
    let x = duration_terms(a);
    let y = duration_terms(u);
    lemma_terms_spaced(a, u);
    lemma_unknown_behind(x, y, y.len() as int);
    lemma_unknown_values(y, y.len() as int);
    assert(0 * crate::double::two_to(1074) == 0) by (nonlinear_arith);
    crate::double::lemma_integers_read_back(0);
}

proof fn lemma_unknown_values(terms: Seq<(Seq<char>, Seq<char>)>, n: int)
    requires
        0 <= n <= terms.len(),
        forall|i: int| 0 <= i < terms.len() ==> unit_usecs((#[trigger] terms[i]).1) is None,
    ensures
        terms_value(terms, n) == 0,
    decreases n,
{
    if n > 0 {
        lemma_unknown_values(terms, n - 1);
        assert(unit_usecs(terms[n - 1].1) is None);
    }
}

/// A unit as it can be written behind a number.
pub open spec fn is_unit_text(unit: Seq<char>) -> bool {
    &&& unit.len() > 0
    &&& unit[0] != '.'
    &&& forall|i: int|
        0 <= i < unit.len() ==> !is_ascii_digit(#[trigger] unit[i]) && !crate::text::is_space(
            unit[i],
        )
}

/// The first `n` terms, each number directly followed by its unit, one behind
/// the other.
pub open spec fn written(terms: Seq<(Seq<char>, Seq<char>)>, n: int) -> Seq<char>
    decreases n,
{
    if n <= 0 {
        Seq::empty()
    } else {
        written(terms, n - 1) + terms[n - 1].0 + terms[n - 1].1
    }
}

proof fn lemma_scan_number(text: Seq<char>, at: int, number: Seq<char>, before: Scan, k: int)
    requires
        0 <= at,
        1 <= k <= number.len(),
        at + number.len() <= text.len(),
        text.subrange(at, at + number.len()) == number,
        is_integer(number),
        scanned(text, at) == before,
        before.unit.len() > 0 || before.number.len() == 0,
    ensures
        scanned(text, at + k) == (Scan {
            terms: if before.unit.len() > 0 {
                before.terms.push((before.number, before.unit))
            } else {
                before.terms
            },
            number: number.take(k),
            unit: Seq::empty(),
        }),
    decreases k,
{
    let c = text.subrange(at, at + number.len())[k - 1];
    assert(text[at + k - 1] == c && is_ascii_digit(number[k - 1]));
    assert(number.take(k) =~= number.take(k - 1).push(c));
    if k > 1 {
        lemma_scan_number(text, at, number, before, k - 1);
    } else {
        assert(number.take(1) =~= Seq::empty().push(c));
        assert(before.unit.len() == 0 ==> before.number =~= Seq::empty() && before.unit
            =~= Seq::empty());
    }
}

proof fn lemma_scan_unit(text: Seq<char>, at: int, unit: Seq<char>, before: Scan, k: int)
    requires
        0 <= at,
        0 <= k <= unit.len(),
        at + unit.len() <= text.len(),
        text.subrange(at, at + unit.len()) == unit,
        is_unit_text(unit),
        scanned(text, at) == before,
        before.unit.len() == 0,
    ensures
        scanned(text, at + k) == (Scan { unit: unit.take(k), ..before }),
    decreases k,
{
    if k > 0 {
        lemma_scan_unit(text, at, unit, before, k - 1);
        let c = text.subrange(at, at + unit.len())[k - 1];
        assert(text[at + k - 1] == c && c == unit[k - 1]);
        assert(unit.take(k) =~= unit.take(k - 1).push(c));
        assert(unit.take(k - 1).len() == k - 1);
    } else {
        assert(unit.take(0) =~= before.unit);
    }
}

/// What is written of terms is read as those terms: "8min32s" is 8 of "min"
/// and 32 of "s". With integers it is a duration.
pub proof fn lemma_written_terms(terms: Seq<(Seq<char>, Seq<char>)>)
    requires
        terms.len() > 0,
        whole_terms(terms),
        forall|i: int| 0 <= i < terms.len() ==> is_unit_text((#[trigger] terms[i]).1),
    ensures
        duration_terms(written(terms, terms.len() as int)) == terms,
        is_duration(written(terms, terms.len() as int)),
{
    let n = terms.len() as int;
    lemma_written_scan(terms, n);
    assert(terms.take(n - 1).push(terms[n - 1]) =~= terms);
    assert(is_integer(terms[n - 1].0) && is_unit_text(terms[n - 1].1));
}

proof fn lemma_written_scan(terms: Seq<(Seq<char>, Seq<char>)>, n: int)
    requires
        0 < n <= terms.len(),
        whole_terms(terms),
        forall|i: int| 0 <= i < terms.len() ==> is_unit_text((#[trigger] terms[i]).1),
    ensures
        ({
            let text = written(terms, n);
            &&& text.len() > 0
            &&& is_ascii_digit(text[0])
            &&& scanned(text, text.len() as int) == (Scan {
                terms: terms.take(n - 1),
                number: terms[n - 1].0,
                unit: terms[n - 1].1,
            })
        }),
    decreases n,
{
    let front = written(terms, n - 1);
    let text = written(terms, n);
    let (number, unit) = terms[n - 1];
    assert(is_integer(terms[n - 1].0) && is_unit_text(terms[n - 1].1));
    let at = front.len() as int;
    if n > 1 {
        lemma_written_scan(terms, n - 1);
        assert(is_unit_text(terms[n - 2].1));
        assert(terms.take(n - 2).push(terms[n - 2]) =~= terms.take(n - 1));
        assert(text[0] == front[0]);
    } else {
        assert(terms.take(0) =~= Seq::empty());
        assert(text[0] == number[0]);
    }
    lemma_scan_prefix(text, front, at);
    let before = scanned(text, at);
    assert(text.subrange(at, at + number.len()) =~= number);
    lemma_scan_number(text, at, number, before, number.len() as int);
    assert(number.take(number.len() as int) =~= number);
    let middle = scanned(text, at + number.len());
    assert(text.subrange(at + number.len(), at + number.len() + unit.len()) =~= unit);
    lemma_scan_unit(text, at + number.len(), unit, middle, unit.len() as int);
    assert(unit.take(unit.len() as int) =~= unit);
    assert(text.len() == at + number.len() + unit.len());
}

/// With every command missing the state is all zero, and still a state.
pub proof fn lemma_missing_commands_read_zero()
    ensures
        state_model(None, None, None, None) == (NtpModel {
            enabled: false,
            synchronized: false,
            servers: Seq::empty(),
            server: Seq::empty(),
            stratum: 0,
            poll_interval_secs: 0,
            delay_usecs: 0,
            jitter_usecs: 0,
            offset_usecs: 0,
            last_sync_secs_ago: None,
        }),
{
}

} // verus!
