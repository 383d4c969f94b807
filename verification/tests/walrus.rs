use walrus::get_db_path;
use walrus::report::{Period, ShowData};
use walrus::store::{Session, Store, TrackError};
use walrus::time::{centihours_exec, parse_datetime, Date, Timestamp};

fn ts(year: i64, month: u8, day: u8, hour: u8, minute: u8) -> Timestamp {
    Timestamp {
        date: Date { year, month, day },
        hour,
        minute,
        second: 0,
        offset_seconds: 0,
    }
}

fn bytes(s: &str) -> Vec<u8> {
    s.as_bytes().to_vec()
}

#[test]
fn db_path_is_fixed() {
    assert_eq!(get_db_path(), "walrus.db");
}

#[test]
fn start_conflict_and_stop_not_found() {
    let mut st = Store::new();
    assert!(matches!(st.stop(ts(2024, 1, 1, 10, 0)), Err(TrackError::NotFound)));
    assert!(st.start(Some("work".to_string()), ts(2024, 1, 1, 9, 0)).is_ok());
    assert_eq!(
        st.start(Some("other".to_string()), ts(2024, 1, 1, 9, 30)),
        Err(TrackError::Conflict)
    );
    assert_eq!(st.start(None, ts(2024, 1, 1, 9, 30)), Err(TrackError::Conflict));
    let stopped = st.stop(ts(2024, 1, 1, 10, 0)).unwrap();
    assert_eq!(stopped.topic, "work");
    assert!(stopped.end.is_some());
    assert!(matches!(st.stop(ts(2024, 1, 1, 11, 0)), Err(TrackError::NotFound)));
}

#[test]
fn at_most_one_open_after_start_stop_sequences() {
    let mut st = Store::new();
    let _ = st.start(None, ts(2024, 1, 1, 8, 0));
    let _ = st.start(None, ts(2024, 1, 1, 8, 5));
    let _ = st.stop(ts(2024, 1, 1, 9, 0));
    let _ = st.start(Some("b".to_string()), ts(2024, 1, 2, 8, 0));
    let _ = st.start(Some("c".to_string()), ts(2024, 1, 2, 8, 1));
    let open = st
        .list(100)
        .iter()
        .filter(|s| s.end.is_none())
        .count();
    assert!(open <= 1);
    assert_eq!(open, 1);
}

#[test]
fn default_topic_on_start() {
    let mut st = Store::new();
    st.start(None, ts(2024, 3, 4, 9, 0)).unwrap();
    let stopped = st.stop(ts(2024, 3, 4, 10, 0)).unwrap();
    assert_eq!(stopped.topic, "default");
}

#[test]
fn add_work_day_is_eight_hours() {
    let mut st = Store::new();
    st.add(
        "work".to_string(),
        &bytes("01.01.2024 09:00"),
        &bytes("01.01.2024 17:00"),
    )
    .unwrap();
    let listed = st.list(10);
    assert_eq!(listed.len(), 1);
    assert_eq!(listed[0].topic, "work");
    assert!(listed[0].end.is_some());
    let secs = listed[0].duration_seconds_exec();
    assert_eq!(centihours_exec(secs), 800);
}

#[test]
fn add_stamps_work_day_is_eight_hours() {
    let mut st = Store::new();
    st.add_stamps("work".to_string(), ts(2024, 1, 1, 9, 0), ts(2024, 1, 1, 17, 0))
        .unwrap();
    let listed = st.list(10);
    assert_eq!(listed.len(), 1);
    assert_eq!(listed[0].duration_seconds_exec(), 8 * 3600);
    assert_eq!(centihours_exec(listed[0].duration_seconds_exec()), 800);
}

#[test]
fn add_rejects_end_not_after_start() {
    let mut st = Store::new();
    assert_eq!(
        st.add_stamps("w".to_string(), ts(2024, 1, 1, 9, 0), ts(2024, 1, 1, 9, 0)),
        Err(TrackError::Validation)
    );
    assert_eq!(
        st.add_stamps("w".to_string(), ts(2024, 1, 1, 9, 0), ts(2024, 1, 1, 8, 0)),
        Err(TrackError::Validation)
    );
    assert_eq!(
        st.add(
            "w".to_string(),
            &bytes("02.01.2024 09:00"),
            &bytes("01.01.2024 09:00")
        ),
        Err(TrackError::Validation)
    );
    assert_eq!(st.list(10).len(), 0);
}

#[test]
fn add_rejects_malformed_text() {
    let mut st = Store::new();
    assert_eq!(
        st.add(
            "w".to_string(),
            &bytes("2024-01-01 09:00"),
            &bytes("01.01.2024 17:00")
        ),
        Err(TrackError::Validation)
    );
    assert_eq!(
        st.add(
            "w".to_string(),
            &bytes("31.02.2024 10:00"),
            &bytes("01.03.2024 10:00")
        ),
        Err(TrackError::Validation)
    );
}

#[test]
fn parse_datetime_calendar_rules() {
    assert!(parse_datetime(&bytes("29.02.2024 10:00")).is_some());
    assert!(parse_datetime(&bytes("29.02.2023 10:00")).is_none());
    assert!(parse_datetime(&bytes("31.12.9999 23:59")).is_some());
    assert!(parse_datetime(&bytes("00.01.2024 10:00")).is_none());
    assert!(parse_datetime(&bytes("01.13.2024 10:00")).is_none());
    assert!(parse_datetime(&bytes("01.01.2024 24:00")).is_none());
    assert!(parse_datetime(&bytes("01.01.2024 10:60")).is_none());
    assert!(parse_datetime(&bytes("01.01.2024 10:00 ")).is_none());
    let t = parse_datetime(&bytes("05.06.2024 07:08")).unwrap();
    assert_eq!(t.date.year, 2024);
    assert_eq!(t.date.month, 6);
    assert_eq!(t.date.day, 5);
    assert_eq!(t.hour, 7);
    assert_eq!(t.minute, 8);
}

#[test]
fn round_trip_add_then_list() {
    let mut st = Store::new();
    st.add_stamps("deep work".to_string(), ts(2024, 2, 10, 13, 0), ts(2024, 2, 10, 14, 30))
        .unwrap();
    st.add_stamps("mail".to_string(), ts(2024, 2, 11, 9, 0), ts(2024, 2, 11, 9, 45))
        .unwrap();
    let listed = st.list(10);
    assert_eq!(listed.len(), 2);
    let dw = listed.iter().find(|s| s.topic == "deep work").unwrap();
    assert_eq!(centihours_exec(dw.duration_seconds_exec()), 150);
    let mail = listed.iter().find(|s| s.topic == "mail").unwrap();
    assert_eq!(centihours_exec(mail.duration_seconds_exec()), 75);
}

#[test]
fn list_orders_latest_first_and_limits() {
    let mut st = Store::new();
    st.add_stamps("a".to_string(), ts(2024, 1, 1, 9, 0), ts(2024, 1, 1, 10, 0)).unwrap();
    st.add_stamps("b".to_string(), ts(2024, 1, 3, 9, 0), ts(2024, 1, 3, 10, 0)).unwrap();
    st.add_stamps("c".to_string(), ts(2024, 1, 2, 9, 0), ts(2024, 1, 2, 10, 0)).unwrap();
    let listed = st.list(2);
    assert_eq!(listed.len(), 2);
    assert_eq!(listed[0].topic, "b");
    assert_eq!(listed[1].topic, "c");
}

#[test]
fn month_mode_single_period_totals_four_hours() {
    let mut st = Store::new();
    st.add_stamps("work".to_string(), ts(2024, 6, 10, 9, 0), ts(2024, 6, 10, 11, 30))
        .unwrap();
    st.add_stamps("work".to_string(), ts(2024, 6, 10, 13, 0), ts(2024, 6, 10, 14, 30))
        .unwrap();
    let now = ts(2024, 6, 15, 12, 0);
    let data: ShowData = st.show(now, 1, true, false);
    let rep = data.report.unwrap();
    assert_eq!(rep.stats.len(), 1);
    let p: &Period = &rep.stats[0].period;
    assert_eq!(p.start.date.day, 1);
    assert_eq!(p.start.date.month, 6);
    assert_eq!(rep.stats[0].rows.len(), 1);
    assert_eq!(rep.stats[0].rows[0].topic, "work");
    assert_eq!(rep.stats[0].rows[0].seconds, 4 * 3600);
    assert_eq!(rep.stats[0].total_seconds, 4 * 3600);
}

#[test]
fn week_boundary_monday_midnight_included() {
    // 2024-06-12 is a Wednesday; the week's Monday is 2024-06-10.
    let mut st = Store::new();
    st.add_stamps("w".to_string(), ts(2024, 6, 10, 0, 0), ts(2024, 6, 10, 1, 0)).unwrap();
    let now = ts(2024, 6, 12, 12, 0);
    let rep = st.show(now, 2, false, true).report.unwrap();
    assert_eq!(rep.stats.len(), 2);
    // Period 0 is the current week, period 1 the one before it.
    assert_eq!(rep.stats[0].period.start.date.day, 10);
    assert_eq!(rep.stats[1].period.start.date.day, 3);
    // The session starting exactly at Monday 00:00 counts in the current
    // week, and not in the earlier week whose exclusive end it touches.
    assert_eq!(rep.stats[0].rows.len(), 1);
    assert_eq!(rep.stats[0].rows[0].topic, "w");
    assert_eq!(rep.stats[0].rows[0].seconds, 3600);
    assert_eq!(rep.stats[1].rows.len(), 0);
}

#[test]
fn grand_total_over_three_weeks_sums_per_period_subtotals() {
    let mut st = Store::new();
    // Weeks, from now backwards: [10.06, now), [03.06, 10.06), [27.05, 03.06).
    st.add_stamps("a".to_string(), ts(2024, 6, 11, 9, 0), ts(2024, 6, 11, 10, 0)).unwrap();
    st.add_stamps("a".to_string(), ts(2024, 6, 5, 9, 0), ts(2024, 6, 5, 11, 0)).unwrap();
    st.add_stamps("a".to_string(), ts(2024, 5, 29, 9, 0), ts(2024, 5, 29, 12, 0)).unwrap();
    st.add_stamps("b".to_string(), ts(2024, 6, 4, 9, 0), ts(2024, 6, 4, 9, 30)).unwrap();
    let now = ts(2024, 6, 12, 12, 0);
    let rep = st.show(now, 3, false, true).report.unwrap();
    assert_eq!(rep.stats.len(), 3);
    let per_period_a: i128 = rep
        .stats
        .iter()
        .map(|stat| {
            stat.rows
                .iter()
                .find(|r| r.topic == "a")
                .map(|r| r.seconds)
                .unwrap_or(0)
        })
        .sum();
    let per_period_b: i128 = rep
        .stats
        .iter()
        .map(|stat| {
            stat.rows
                .iter()
                .find(|r| r.topic == "b")
                .map(|r| r.seconds)
                .unwrap_or(0)
        })
        .sum();
    let grand_a = rep.grand.iter().find(|r| r.topic == "a").unwrap().seconds;
    let grand_b = rep.grand.iter().find(|r| r.topic == "b").unwrap().seconds;
    assert_eq!(grand_a, per_period_a);
    assert_eq!(grand_b, per_period_b);
    assert_eq!(grand_a, 6 * 3600);
    assert_eq!(grand_b, 1800);
    assert_eq!(rep.grand_total_seconds, per_period_a + per_period_b);
    // The grand rows add up to the overall grand total.
    let rows_sum: i128 = rep.grand.iter().map(|r| r.seconds).sum();
    assert_eq!(rows_sum, rep.grand_total_seconds);
    // Sorted descending by seconds: "a" comes first.
    assert_eq!(rep.grand[0].topic, "a");
}

#[test]
fn delete_missing_fails_and_delete_existing_removes_exactly_one() {
    let mut st = Store::new();
    st.add_stamps("a".to_string(), ts(2024, 1, 1, 9, 0), ts(2024, 1, 1, 10, 0)).unwrap();
    st.add_stamps("b".to_string(), ts(2024, 1, 2, 9, 0), ts(2024, 1, 2, 10, 0)).unwrap();
    assert_eq!(st.delete(999), Err(TrackError::NotFound));
    assert_eq!(st.list(10).len(), 2);
    let id_a = st.list(10).iter().find(|s| s.topic == "a").unwrap().id;
    st.delete(id_a).unwrap();
    let after = st.list(10);
    assert_eq!(after.len(), 1);
    assert_eq!(after[0].topic, "b");
    assert_eq!(st.delete(id_a), Err(TrackError::NotFound));
}

#[test]
fn edit_changes_only_given_fields() {
    let mut st = Store::new();
    st.add_stamps("old".to_string(), ts(2024, 1, 1, 9, 0), ts(2024, 1, 1, 10, 0)).unwrap();
    let id = st.list(10)[0].id;
    assert_eq!(
        st.edit(id + 1, Some("x".to_string()), None, None),
        Err(TrackError::NotFound)
    );
    st.edit(id, Some("new".to_string()), None, None).unwrap();
    let s = st.list(10);
    assert_eq!(s[0].topic, "new");
    assert_eq!(s[0].start.hour, 9);
    // An edited start may land after the end; the order is not re-checked.
    st.edit(id, None, Some(&bytes("02.01.2024 09:00")), None).unwrap();
    let s = st.list(10);
    assert_eq!(s[0].start.date.day, 2);
    assert!(s[0].duration_seconds_exec() < 0);
    assert_eq!(
        st.edit(id, None, Some(&bytes("junk")), None),
        Err(TrackError::Validation)
    );
}

#[test]
fn reset_clears_everything() {
    let mut st = Store::new();
    st.add_stamps("a".to_string(), ts(2024, 1, 1, 9, 0), ts(2024, 1, 1, 10, 0)).unwrap();
    st.start(None, ts(2024, 1, 2, 9, 0)).unwrap();
    st.reset();
    assert_eq!(st.list(10).len(), 0);
    assert!(matches!(st.stop(ts(2024, 1, 2, 10, 0)), Err(TrackError::NotFound)));
}

#[test]
fn export_lists_closed_sessions_earliest_first() {
    let mut st = Store::new();
    st.add_stamps("late".to_string(), ts(2024, 1, 5, 9, 0), ts(2024, 1, 5, 10, 0)).unwrap();
    st.add_stamps("early".to_string(), ts(2024, 1, 2, 9, 0), ts(2024, 1, 2, 10, 0)).unwrap();
    st.start(Some("open".to_string()), ts(2024, 1, 6, 9, 0)).unwrap();
    let rows = st.export();
    assert_eq!(rows.len(), 2);
    assert_eq!(rows[0].topic, "early");
    assert_eq!(rows[1].topic, "late");
    assert!(rows.iter().all(|s| s.end.is_some()));
}

#[test]
fn show_reports_active_session() {
    let mut st = Store::new();
    st.start(Some("now".to_string()), ts(2024, 1, 1, 9, 0)).unwrap();
    let data = st.show(ts(2024, 1, 1, 10, 30), 3, false, false);
    let (active, elapsed) = data.active.unwrap();
    assert_eq!(active.topic, "now");
    assert_eq!(elapsed, 5400);
    assert!(data.report.is_none());
    // An open session never appears in the recent closed listing.
    assert_eq!(data.recent.len(), 0);
}

#[test]
fn try_from_sessions_rejects_broken_collections() {
    let open1 = Session { id: 1, topic: "a".to_string(), start: ts(2024, 1, 1, 9, 0), end: None };
    let open2 = Session { id: 2, topic: "b".to_string(), start: ts(2024, 1, 2, 9, 0), end: None };
    assert!(Store::try_from_sessions(vec![open1, open2]).is_none());
    let dup1 = Session {
        id: 7,
        topic: "a".to_string(),
        start: ts(2024, 1, 1, 9, 0),
        end: Some(ts(2024, 1, 1, 10, 0)),
    };
    let dup2 = Session {
        id: 7,
        topic: "b".to_string(),
        start: ts(2024, 1, 2, 9, 0),
        end: Some(ts(2024, 1, 2, 10, 0)),
    };
    assert!(Store::try_from_sessions(vec![dup1, dup2]).is_none());
    let good = Session {
        id: 3,
        topic: "a".to_string(),
        start: ts(2024, 1, 1, 9, 0),
        end: Some(ts(2024, 1, 1, 10, 0)),
    };
    let st = Store::try_from_sessions(vec![good]).unwrap();
    assert_eq!(st.list(10).len(), 1);
}

#[test]
fn centihours_rounds_half_away_from_zero() {
    assert_eq!(centihours_exec(8 * 3600), 800);
    assert_eq!(centihours_exec(4500), 125);
    assert_eq!(centihours_exec(18), 1);
    assert_eq!(centihours_exec(17), 0);
    assert_eq!(centihours_exec(-4500), -125);
    assert_eq!(centihours_exec(0), 0);
}

#[test]
fn month_mode_rolls_over_year_boundary() {
    let mut st = Store::new();
    st.add_stamps("dec".to_string(), ts(2023, 12, 15, 9, 0), ts(2023, 12, 15, 10, 0)).unwrap();
    st.add_stamps("jan".to_string(), ts(2024, 1, 15, 9, 0), ts(2024, 1, 15, 10, 0)).unwrap();
    let now = ts(2024, 1, 20, 12, 0);
    let rep = st.show(now, 2, true, false).report.unwrap();
    assert_eq!(rep.stats.len(), 2);
    assert_eq!(rep.stats[0].period.start.date.year, 2024);
    assert_eq!(rep.stats[0].period.start.date.month, 1);
    assert_eq!(rep.stats[1].period.start.date.year, 2023);
    assert_eq!(rep.stats[1].period.start.date.month, 12);
    assert_eq!(rep.stats[0].rows[0].topic, "jan");
    assert_eq!(rep.stats[1].rows[0].topic, "dec");
}

#[test]
fn edit_applies_fields_independently_in_order() {
    let mut st = Store::new();
    st.add_stamps("old".to_string(), ts(2024, 1, 1, 9, 0), ts(2024, 1, 1, 10, 0)).unwrap();
    let id = st.list(10)[0].id;
    // A bad start text fails the edit, but the topic was already applied.
    assert_eq!(
        st.edit(id, Some("renamed".to_string()), Some(&bytes("junk")), None),
        Err(TrackError::Validation)
    );
    let s = st.list(10);
    assert_eq!(s[0].topic, "renamed");
    assert_eq!(s[0].start.hour, 9);
    // A bad end text fails after the start was already applied.
    assert_eq!(
        st.edit(id, None, Some(&bytes("02.01.2024 08:00")), Some(&bytes("junk"))),
        Err(TrackError::Validation)
    );
    let s = st.list(10);
    assert_eq!(s[0].start.date.day, 2);
    assert_eq!(s[0].end.unwrap().date.day, 1);
    // A topic-only edit always succeeds on an existing id.
    assert!(st.edit(id, Some("again".to_string()), None, None).is_ok());
    assert_eq!(st.list(10)[0].topic, "again");
}

#[test]
fn edit_stamps_rewrites_all_given_fields_at_once() {
    let mut st = Store::new();
    st.add_stamps("a".to_string(), ts(2024, 1, 1, 9, 0), ts(2024, 1, 1, 10, 0)).unwrap();
    let id = st.list(10)[0].id;
    assert_eq!(
        st.edit_stamps(id + 7, None, None, None),
        Err(TrackError::NotFound)
    );
    st.edit_stamps(
        id,
        Some("b".to_string()),
        Some(ts(2024, 2, 2, 8, 0)),
        Some(ts(2024, 2, 2, 9, 30)),
    )
    .unwrap();
    let s = st.list(10);
    assert_eq!(s[0].topic, "b");
    assert_eq!(s[0].start.date.month, 2);
    assert_eq!(centihours_exec(s[0].duration_seconds_exec()), 150);
}

#[test]
fn start_and_add_fail_with_storage_when_id_space_is_spent() {
    let mut st = Store { sessions: Vec::new(), next_id: i64::MAX - 1 };
    assert_eq!(st.start(None, ts(2024, 1, 1, 9, 0)), Err(TrackError::Storage));
    assert_eq!(
        st.add_stamps("w".to_string(), ts(2024, 1, 1, 9, 0), ts(2024, 1, 1, 10, 0)),
        Err(TrackError::Storage)
    );
    // The order check still comes first.
    assert_eq!(
        st.add_stamps("w".to_string(), ts(2024, 1, 1, 9, 0), ts(2024, 1, 1, 9, 0)),
        Err(TrackError::Validation)
    );
    assert_eq!(st.list(10).len(), 0);
}

#[test]
fn reset_restarts_ids_from_one() {
    let mut st = Store::new();
    st.add_stamps("a".to_string(), ts(2024, 1, 1, 9, 0), ts(2024, 1, 1, 10, 0)).unwrap();
    st.add_stamps("b".to_string(), ts(2024, 1, 2, 9, 0), ts(2024, 1, 2, 10, 0)).unwrap();
    st.reset();
    st.add_stamps("c".to_string(), ts(2024, 1, 3, 9, 0), ts(2024, 1, 3, 10, 0)).unwrap();
    assert_eq!(st.list(10)[0].id, 1);
}
