//! Laws of what the time daemon tells.

use vstd::prelude::*;

verus! {

/// What a unit of time is worth in microseconds.
pub proof fn lemma_units(unit: Seq<char>)
    ensures
        unit == "us"@ || unit == "usec"@ || unit == "\u{b5}s"@ ==> crate::ntpshow::unit_usecs(unit)
            == Some(1nat),
        crate::ntpshow::unit_usecs("ms"@) == Some(1_000nat),
        crate::ntpshow::unit_usecs("msec"@) == Some(1_000nat),
        crate::ntpshow::unit_usecs("s"@) == Some(1_000_000nat),
        crate::ntpshow::unit_usecs("sec"@) == Some(1_000_000nat),
        crate::ntpshow::unit_usecs(""@) == Some(1_000_000nat),
        crate::ntpshow::unit_usecs("min"@) == Some(60_000_000nat),
        crate::ntpshow::unit_usecs("m"@) == Some(60_000_000nat),
        crate::ntpshow::unit_usecs("h"@) == Some(3_600_000_000nat),
        crate::ntpshow::unit_usecs("hr"@) == Some(3_600_000_000nat),
        crate::ntpshow::unit_usecs("d"@) == Some(86_400_000_000nat),
        crate::ntpshow::unit_usecs("day"@) == Some(86_400_000_000nat),
        crate::ntpshow::unit_usecs("days"@) == Some(86_400_000_000nat),
{
    reveal_strlit("us");
    reveal_strlit("usec");
    reveal_strlit("\u{b5}s");
    reveal_strlit("ms");
    reveal_strlit("msec");
    reveal_strlit("s");
    reveal_strlit("sec");
    reveal_strlit("");
    reveal_strlit("min");
    reveal_strlit("m");
    reveal_strlit("h");
    reveal_strlit("hr");
    reveal_strlit("d");
    reveal_strlit("day");
    reveal_strlit("days");
    assert("us"@.len() == 2 && "usec"@.len() == 4 && "\u{b5}s"@.len() == 2 && "ms"@.len() == 2);
    assert("msec"@.len() == 4 && "s"@.len() == 1 && "sec"@.len() == 3 && ""@.len() == 0);
    assert("min"@.len() == 3 && "m"@.len() == 1 && "h"@.len() == 1 && "hr"@.len() == 2);
    assert("d"@.len() == 1 && "day"@.len() == 3 && "days"@.len() == 4);
    lemma_apart("us"@, "\u{b5}s"@);
    lemma_apart("ms"@, "us"@);
    lemma_apart("ms"@, "\u{b5}s"@);
    lemma_apart("msec"@, "usec"@);
    lemma_apart("s"@, "m"@);
    lemma_apart("sec"@, "min"@);
    lemma_apart("h"@, "m"@);
    lemma_apart("h"@, "s"@);
    lemma_apart("hr"@, "us"@);
    lemma_apart("hr"@, "ms"@);
    lemma_apart("hr"@, "\u{b5}s"@);
    lemma_apart("d"@, "h"@);
    lemma_apart("d"@, "m"@);
    lemma_apart("d"@, "s"@);
    lemma_apart("day"@, "sec"@);
    lemma_apart("day"@, "min"@);
    lemma_apart("days"@, "usec"@);
    lemma_apart("days"@, "msec"@);
}

proof fn lemma_apart(a: Seq<char>, b: Seq<char>)
    requires
        a.len() > 0,
        b.len() > 0,
        a[0] != b[0],
    ensures
        a != b,
{
}

/// What is printed under a name: the last line with that name before the
/// separator, both without white space around them.
pub proof fn lemma_lines_are_pairs(
    lines: Seq<Seq<char>>,
    separator: char,
    n: int,
    name: Seq<char>,
)
    requires
        0 < n <= lines.len(),
    ensures
        ({
            let front = crate::ntpshow::pairs_of(lines, separator, n - 1);
            let all = crate::ntpshow::pairs_of(lines, separator, n);
            let cut = crate::text::cut_text(lines[n - 1], separator);
            let had = crate::ntpshow::value_of(front, front.len() as int, name);
            let got = crate::ntpshow::value_of(all, all.len() as int, name);
            &&& crate::ntpshow::pairs_of(lines, separator, 0).len() == 0
            &&& cut is None ==> got == had
            &&& cut matches Some(p) ==> {
                &&& crate::text::trim_text(p.0) == name ==> got == Some(crate::text::trim_text(p.1))
                &&& crate::text::trim_text(p.0) != name ==> got == had
            }
        }),
{
    let front = crate::ntpshow::pairs_of(lines, separator, n - 1);
    let all = crate::ntpshow::pairs_of(lines, separator, n);
    if crate::text::cut_text(lines[n - 1], separator) is Some {
        lemma_same_values(front, all, front.len() as int, name);
    }
}

proof fn lemma_same_values(
    a: Seq<(Seq<char>, Seq<char>)>,
    b: Seq<(Seq<char>, Seq<char>)>,
    n: int,
    name: Seq<char>,
)
    requires
        n <= a.len(),
        n <= b.len(),
        forall|i: int| 0 <= i < n ==> a[i] == b[i],
    ensures
        crate::ntpshow::value_of(a, n, name) == crate::ntpshow::value_of(b, n, name),
    decreases n,
{
    if n > 0 {
        lemma_same_values(a, b, n - 1, name);
    }
}

/// Of two numbers the second counts where the first is 0.
pub open spec fn either(a: int, b: int) -> int {
    if a == 0 {
        b
    } else {
        a
    }
}

/// The time daemon's state: whether it is on and in step, its servers, the one
/// it follows by name or else by address, its interval in seconds, and what
/// the server's message says of stratum, delay and jitter, or else what the
/// status says; the offset is the status's.
pub proof fn lemma_state_is_told(
    show: Option<Seq<char>>,
    timesync: Option<Seq<char>>,
    status: Option<Seq<char>>,
    age: Option<u64>,
)
    ensures
        ({
            let m = crate::ntpshow::state_model(show, timesync, status, age);
            let name = crate::ntpshow::printed(timesync, '=', "ServerName"@);
            let address = crate::ntpshow::printed(timesync, '=', "ServerAddress"@);
            let named = name is Some && name->0.len() > 0;
            &&& m.enabled <==> crate::ntpshow::printed(show, '=', "NTP"@) == Some("yes"@)
            &&& m.synchronized <==> crate::ntpshow::printed(show, '=', "NTPSynchronized"@) == Some(
                "yes"@,
            )
            &&& crate::ntpshow::printed(timesync, '=', "SystemNTPServers"@) is None
                ==> m.servers.len() == 0
            &&& crate::ntpshow::printed(timesync, '=', "SystemNTPServers"@) matches Some(t)
                ==> m.servers == crate::text::words_of(t)
            &&& named ==> m.server == name->0
            &&& !named && address is Some ==> m.server == address->0
            &&& !named && address is None ==> m.server.len() == 0
            &&& m.stratum == either(
                crate::ntpshow::number_or_zero(
                    crate::ntpshow::reply_field(timesync, "Stratum"@),
                ) as int,
                crate::ntpshow::number_or_zero(
                    crate::ntpshow::printed(status, ':', "Stratum"@),
                ) as int,
            )
            &&& m.delay_usecs == either(
                crate::ntpshow::usecs_or_zero(
                    crate::ntpshow::reply_field(timesync, "RootDelay"@),
                ) as int,
                crate::ntpshow::usecs_or_zero(
                    crate::ntpshow::printed(status, ':', "Delay"@),
                ) as int,
            )
            &&& m.jitter_usecs == either(
                crate::ntpshow::usecs_or_zero(
                    crate::ntpshow::reply_field(timesync, "Jitter"@),
                ) as int,
                crate::ntpshow::usecs_or_zero(
                    crate::ntpshow::printed(status, ':', "Jitter"@),
                ) as int,
            )
            &&& crate::ntpshow::printed(status, ':', "Offset"@) is None ==> m.offset_usecs == 0
            &&& crate::ntpshow::printed(status, ':', "Offset"@) matches Some(t) ==> m.offset_usecs
                == crate::ntpshow::offset_of(t)
            &&& m.last_sync_secs_ago == age
            &&& crate::ntpshow::printed(timesync, '=', "PollIntervalUSec"@) matches Some(t) ==> (
            crate::ntpshow::usecs_of(t) / 1_000_000 <= u32::MAX ==> m.poll_interval_secs
                == crate::ntpshow::usecs_of(t) / 1_000_000)
            &&& crate::ntpshow::printed(timesync, '=', "PollIntervalUSec"@) is None
                ==> m.poll_interval_secs == 0
        }),
{
}

/// A field of the server's message is the first of that name in it.
pub proof fn lemma_first_fields(pairs: Seq<(Seq<char>, Seq<char>)>, n: int, name: Seq<char>)
    requires
        0 <= n,
    ensures
        match crate::ntpshow::first_value(pairs, n, name) {
            Some(v) => exists|i: int|
                n <= i < pairs.len() && #[trigger] pairs[i] == (name, v) && forall|j: int|
                    n <= j < i ==> (#[trigger] pairs[j]).0 != name,
            None => forall|j: int| n <= j < pairs.len() ==> (#[trigger] pairs[j]).0 != name,
        },
    decreases pairs.len() - n,
{
    if n < pairs.len() {
        if pairs[n].0 == name {
            assert(pairs[n] == (name, pairs[n].1));
        } else {
            lemma_first_fields(pairs, n + 1, name);
            if let Some(v) = crate::ntpshow::first_value(pairs, n + 1, name) {
                let i = choose|i: int|
                    n + 1 <= i < pairs.len() && #[trigger] pairs[i] == (name, v) && forall|j: int|
                        n + 1 <= j < i ==> (#[trigger] pairs[j]).0 != name;
                assert(pairs[i] == (name, v));
            }
        }
    }
}

/// A stamp that is still to come has no age.
pub proof fn lemma_ages(seconds: Option<i64>)
    ensures
        seconds is None ==> crate::ntpshow::age_of(seconds) is None,
        seconds matches Some(n) ==> (n < 0 ==> crate::ntpshow::age_of(seconds) is None),
        seconds matches Some(n) ==> (n >= 0 ==> (crate::ntpshow::age_of(seconds) matches Some(s)
            && s == n)),
{
}

/// A number with a point counts its digits and how many stand behind the
/// point.
pub proof fn lemma_numbers(whole: Seq<char>, fraction: Seq<char>)
    requires
        forall|i: int| 0 <= i < whole.len() ==> #[trigger] whole[i] != '.',
        whole.len() + fraction.len() > 0,
    ensures
        ({
            let r = crate::ntpshow::number_value(whole + seq!['.'] + fraction);
            let v = crate::text::digits_value(whole + fraction, 10);
            &&& v is None ==> r is None
            &&& v matches Some(n) ==> r == Some((n as nat, fraction.len()))
        }),
{
    let s = whole + seq!['.'] + fraction;
    crate::text::lemma_first_at(s, '.');
    assert(s[whole.len() as int] == '.');
    assert forall|i: int| 0 <= i < whole.len() implies s[i] != '.' by {
        assert(whole[i] != '.');
    }
    assert(crate::text::first_at(s, '.') == Some(whole.len() as int)) by {
        if let Some(i) = crate::text::first_at(s, '.') {
            if i < whole.len() {
                assert(s[i] == whole[i]);
            }
        }
    }
    assert(s.take(whole.len() as int) =~= whole);
    assert(s.skip(whole.len() as int + 1) =~= fraction);
}

} // verus!
