use repotracer::dates::{choose_moment, parse_loose_datetime};
use repotracer::granularity::Moment;

#[test]
fn zoned_date_time_is_read_in_utc() {
    assert_eq!(
        parse_loose_datetime("2024-03-05 10:20:30 +0200"),
        Some(Moment { secs: 1709626830, nanos: 0 })
    );
}

#[test]
fn date_time_without_zone_is_utc() {
    assert_eq!(
        parse_loose_datetime("2024-03-05 10:20:30"),
        Some(Moment { secs: 1709634030, nanos: 0 })
    );
}

#[test]
fn date_alone_is_its_midnight() {
    assert_eq!(parse_loose_datetime("2024-03-05"), Some(Moment { secs: 1709596800, nanos: 0 }));
}

#[test]
fn time_alone_is_that_time_today() {
    let m = parse_loose_datetime("10:20:30").unwrap();
    assert_eq!(m.secs.rem_euclid(86400), 37230);
    assert_eq!(m.nanos, 0);
}

#[test]
fn unreadable_text_gives_none() {
    assert_eq!(parse_loose_datetime("yesterday"), None);
    assert_eq!(parse_loose_datetime(""), None);
    assert_eq!(parse_loose_datetime("2024-13-45"), None);
}

#[test]
fn choose_moment_prefers_the_earlier_forms() {
    let z = Some((100, 7));
    let n = Some((200, 8));
    let d = Some(86400);
    let t = Some((60, 9));
    assert_eq!(choose_moment(z, n, d, t, 0), Some(Moment { secs: 100, nanos: 7 }));
    assert_eq!(choose_moment(None, n, d, t, 0), Some(Moment { secs: 200, nanos: 8 }));
    assert_eq!(choose_moment(None, None, d, t, 0), Some(Moment { secs: 86400, nanos: 0 }));
    assert_eq!(choose_moment(None, None, None, t, 172800), Some(Moment { secs: 172860, nanos: 9 }));
    assert_eq!(choose_moment(None, None, None, None, 172800), None);
}
