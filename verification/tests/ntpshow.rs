//! `show ntp`: what timedatectl prints, read back.

use hemlock::ntpshow::{
    as_age, labels, last_reply, ntp_message_field, ntp_state, parse_offset_usecs, parse_usecs,
    properties, secs_since, stamp_body, state_from,
};

#[test]
fn systemd_durations_parse() {
    assert_eq!(parse_usecs("1us"), 1);
    assert_eq!(parse_usecs("88us"), 88);
    assert_eq!(parse_usecs("1.204ms"), 1204);
    assert_eq!(parse_usecs("500ms"), 500_000);
    assert_eq!(parse_usecs("32s"), 32_000_000);
    assert_eq!(parse_usecs("8min 32s"), 512_000_000);
    assert_eq!(parse_usecs("34min 8s"), 2_048_000_000);
    assert_eq!(parse_usecs("1h 2min 3s"), 3_723_000_000);
    // Unknown units contribute nothing; junk is zero, not a panic.
    assert_eq!(parse_usecs(""), 0);
    assert_eq!(parse_usecs("banana"), 0);
    assert_eq!(parse_usecs("12furlongs"), 0);
}

/// The offset is the only signed field: the local clock can lead.
#[test]
fn offsets_keep_their_sign() {
    assert_eq!(parse_offset_usecs("-412us"), -412);
    assert_eq!(parse_offset_usecs("412us"), 412);
    assert_eq!(parse_offset_usecs("+1.5ms"), 1500);
    assert_eq!(parse_offset_usecs("-2s"), -2_000_000);
    assert_eq!(parse_offset_usecs(""), 0);
}

#[test]
fn ntp_message_fields_split_out() {
    let message = "{ Leap=0, Version=4, Mode=4, Stratum=3, Precision=-24, \
                   RootDelay=1.204ms, RootDispersion=1.129ms, Reference=C0A80001, \
                   DestinationTimestamp=Sat 2026-08-24 21:14:07 UTC, Ignored=no, \
                   PacketCount=5, Jitter=88us }";
    assert_eq!(ntp_message_field(message, "Stratum").as_deref(), Some("3"));
    assert_eq!(
        ntp_message_field(message, "RootDelay").as_deref(),
        Some("1.204ms")
    );
    assert_eq!(
        ntp_message_field(message, "Jitter").as_deref(),
        Some("88us")
    );
    assert_eq!(ntp_message_field(message, "Nonesuch"), None);
}

#[test]
fn timestamps_age_against_now() {
    let now = chrono::DateTime::parse_from_rfc3339("2026-08-24T21:18:19Z")
        .unwrap()
        .with_timezone(&chrono::Utc);
    let now: (i64, u32) = (now.timestamp(), now.timestamp_subsec_nanos());
    assert_eq!(
        secs_since("Sat 2026-08-24 21:14:07 UTC", now),
        Some(4 * 60 + 12)
    );
    // A future timestamp (clock stepped backwards) is not an age.
    assert_eq!(secs_since("Sat 2026-08-24 21:20:00 UTC", now), None);
    // Non-UTC zones and junk degrade to "unknown".
    assert_eq!(secs_since("Sat 2026-08-24 21:14:07 CEST", now), None);
    assert_eq!(secs_since("never", now), None);
}

#[test]
fn property_and_label_forms_both_parse() {
    let props = properties("NTP=yes\nNTPSynchronized=no\nTimezone=UTC\n");
    assert_eq!(props.get("NTP").map(String::as_str), Some("yes"));
    assert_eq!(props.get("NTPSynchronized").map(String::as_str), Some("no"));
    let fields = labels("       Server: 10.42.0.5 (10.42.0.5)\n       Offset: -412us\n");
    assert_eq!(fields.get("Offset").map(String::as_str), Some("-412us"));
    // The label form keeps only what precedes the first colon, so
    // an IPv6 value survives intact.
    let fields = labels("       Server: 2001:db8::1 (2001:db8::1)\n");
    assert_eq!(
        fields.get("Server").map(String::as_str),
        Some("2001:db8::1 (2001:db8::1)")
    );
}

/// The last of two lines with one name is the one that counts.
#[test]
fn later_properties_win() {
    let props = properties("A=1\nA=2\n");
    assert_eq!(props.get("A").map(String::as_str), Some("2"));
    assert_eq!(props.get("B"), None);
}

/// A stamp is cut down to its date and time, and only in UTC.
#[test]
fn stamps_lose_their_weekday() {
    assert_eq!(
        stamp_body("Sat 2026-08-24 21:14:07 UTC").as_deref(),
        Some("2026-08-24 21:14:07")
    );
    assert_eq!(stamp_body("Sat 2026-08-24 21:14:07 CEST"), None);
    assert_eq!(as_age(Some(-1)), None);
    assert_eq!(as_age(Some(7)), Some(7));
    assert_eq!(as_age(None), None);
}

/// A moment is read to the second and its age counts whole seconds.
#[test]
fn ages_count_whole_seconds() {
    let base: i64 = 1_787_606_047;
    let stamp = "Mon 2026-08-24 21:14:07 UTC";
    assert_eq!(secs_since(stamp, (base, 0)), Some(0));
    assert_eq!(secs_since(stamp, (base, 999_999_999)), Some(0));
    assert_eq!(secs_since(stamp, (base + 59, 500_000_000)), Some(59));
    assert_eq!(secs_since(stamp, (base - 1, 0)), None);
}

/// The whole state, from what the three commands print.
#[test]
fn the_state_reads_every_command() {
    let show = Some("NTP=yes\nNTPSynchronized=yes\n".to_string());
    let timesync = Some(
        "SystemNTPServers=10.42.0.5 10.42.0.6\nServerName=ntp.example\nServerAddress=10.42.0.5\n\
         PollIntervalUSec=34min 8s\n\
         NTPMessage={ Leap=0, Stratum=3, RootDelay=1.204ms, \
         DestinationTimestamp=Mon 2026-08-24 21:14:07 UTC, Jitter=88us }\n"
            .to_string(),
    );
    let status = Some("       Server: 10.42.0.5\n       Offset: -412us\n".to_string());
    let state = ntp_state(&show, &timesync, &status, (1_787_606_047 + 252, 0));
    assert!(state.enabled);
    assert!(state.synchronized);
    assert_eq!(state.servers, vec!["10.42.0.5", "10.42.0.6"]);
    assert_eq!(state.server, "ntp.example");
    assert_eq!(state.stratum, 3);
    assert_eq!(state.poll_interval_secs, 2048);
    assert_eq!(state.delay_usecs, 1204);
    assert_eq!(state.jitter_usecs, 88);
    assert_eq!(state.offset_usecs, -412);
    assert_eq!(state.last_sync_secs_ago, Some(252));
    assert_eq!(
        last_reply(&timesync).as_deref(),
        Some("Mon 2026-08-24 21:14:07 UTC")
    );

    // Where every command failed there is nothing to show.
    let state = state_from(&None, &None, &None, None);
    assert!(!state.enabled);
    assert!(state.servers.is_empty());
    assert_eq!(state.offset_usecs, 0);
    assert_eq!(state.last_sync_secs_ago, None);

    // Delay, jitter and stratum fall back on the human-readable form.
    let status = Some("  Stratum: 2\n  Delay: 3ms\n  Jitter: 9us\n".to_string());
    let state = state_from(&None, &None, &status, None);
    assert_eq!(state.stratum, 2);
    assert_eq!(state.delay_usecs, 3000);
    assert_eq!(state.jitter_usecs, 9);
}

/// Durations written one behind the other add up, and what has an unknown
/// unit adds nothing.
#[test]
fn durations_add_up() {
    let (a, b) = ("8min32s", "2h 5ms");
    let sum = parse_usecs(a) + parse_usecs(b);
    assert_eq!(sum, 512_000_000 + 7_200_005_000);
    assert_eq!(parse_usecs(&format!("{a} {b}")), sum);
    assert_eq!(parse_usecs(&format!("{a}{b}")), sum);
    assert_eq!(parse_usecs(&format!("{b} {a}")), sum);
    assert_eq!(parse_usecs(&format!("{a} 12furlongs")), parse_usecs(a));
    assert_eq!(parse_usecs("12furlongs"), 0);
}

/// What 64 bits of floating point make of terms in microseconds.
fn in_floating_point(terms: &[(&str, f64)]) -> u64 {
    let mut total: f64 = 0.0;
    for (number, scale) in terms {
        total += number.parse::<f64>().unwrap() * scale;
    }
    if total.is_finite() {
        total.round() as u64
    } else {
        0
    }
}

/// A duration is computed in floating point, to the last bit.
#[test]
fn durations_round_as_floating_point_does() {
    let numbers: Vec<String> = vec![
        "0".into(),
        "0.5".into(),
        "1.5".into(),
        "2.5".into(),
        "0.49999999999999994".into(),
        "0.4999999999999999999999999".into(),
        "1.204".into(),
        "0.1".into(),
        "0.3000000000000000444089209850062616169452667236328125".into(),
        "123456.7890123456789".into(),
        "4503599627370497.5".into(),
        "9007199254740992".into(),
        "9007199254740993".into(),
        "9007199254740994.9999".into(),
        "18446744073709551615".into(),
        "18446744073709551616".into(),
        "7.".into(),
        format!("0.{}1", "0".repeat(400)),
        format!("1{}", "0".repeat(300)),
        format!("1{}", "0".repeat(308)),
        format!("1797693134862315807{}", "0".repeat(290)),
        format!("1797693134862315808{}", "0".repeat(290)),
        format!("1{}", "0".repeat(309)),
        "9".repeat(700),
    ];
    for n in &numbers {
        for (unit, scale) in [("us", 1.0), ("ms", 1e3), ("s", 1e6), ("d", 8.64e10)] {
            assert_eq!(
                parse_usecs(&format!("{n}{unit}")),
                in_floating_point(&[(n, scale)]),
                "{n}{unit}"
            );
        }
        for other in ["1", "0.5", "9007199254740993"] {
            assert_eq!(
                parse_usecs(&format!("{n}us {other}min")),
                in_floating_point(&[(n, 1.0), (other, 6e7)]),
                "{n}us {other}min"
            );
        }
    }
}

/// Values of their own: a half goes up, 53 bits are held, and what is not
/// finite reads as zero.
#[test]
fn extreme_durations_have_their_values() {
    assert_eq!(parse_usecs("0.5us"), 1);
    assert_eq!(parse_usecs("2.5us"), 3);
    assert_eq!(parse_usecs("9007199254740993us"), 9_007_199_254_740_992);
    assert_eq!(parse_usecs("1.2.3s"), 0);
    assert_eq!(parse_usecs("99999999999999999999d"), u64::MAX);
    assert_eq!(parse_usecs(&format!("1{}us", "0".repeat(308))), u64::MAX);
    assert_eq!(parse_usecs(&format!("1{}us", "0".repeat(309))), 0);
    assert_eq!(parse_usecs(&format!("1{}s", "0".repeat(308))), 0);
    assert_eq!(parse_offset_usecs(&format!("-1{}us", "0".repeat(309))), 0);
    assert_eq!(parse_offset_usecs("-99999999999999999999d"), -i64::MAX);
}

/// Whole durations are exact up to two to the power of 53 microseconds.
#[test]
fn whole_durations_are_exact() {
    assert_eq!(parse_usecs("9007199254740992us"), 9_007_199_254_740_992);
    assert_eq!(parse_usecs("9007199254s 740991us"), 9_007_199_254_740_991);
    assert_eq!(
        parse_usecs("9007199254740992us 1us"),
        9_007_199_254_740_992
    );
}
