use desklog::clock::{hhmm, hhmmss, local_hour, mmdd, parse_i64, parse_offset};
use desklog::focus::{build_blocks, focus_list, is_focus, try_build_blocks, Block, Row};
use desklog::report::{
    collector_status, export_line, gap_line, hour_totals, label_value, log_fits_check, log_lines,
    now_json, peak, span_fits_check, span_seconds, titles_missing, untitled_pct, Collector, Record,
};
use desklog::span::{active_seconds, days_back, window_parts, Key, SpanLog, SpanWrite};
use desklog::summary::{focus_by_app, focus_by_day};
use desklog::text::{bar_cells, center, csv, dur, int_text, jstr, non_empty, trim, trunc};
use desklog::tracker::Tracker;

fn span(start: i64, end: i64, app: &str, title: Option<&str>, active: i64, session: i64, locked: bool) -> Row {
    Row {
        start_t: start,
        end_t: end,
        app: app.into(),
        title: title.map(|t| t.to_string()),
        active_s: active,
        session_s: session,
        locked,
    }
}

fn block(start: i64, end: i64, app: &str, active: i64, titles: &[(&str, i64)]) -> Block {
    Block {
        start_t: start,
        end_t: end,
        app: app.into(),
        active_s: active,
        titles: titles.iter().map(|(t, s)| (t.to_string(), *s)).collect(),
    }
}

// ---------- tracker ----------

#[test]
fn tracker_app_switch_restarts_app_clock_only() {
    let mut t = Tracker::new(300_000);
    assert_eq!(t.update(100, "A", 0), (0, 0));
    assert_eq!(t.update(130, "A", 0), (30, 30));
    assert_eq!(t.update(150, "B", 0), (50, 0));
    assert_eq!(t.update(170, "B", 0), (70, 20));
    assert_eq!(t.session_id(), 1);
}

#[test]
fn tracker_app_clock_starts_at_the_first_observation() {
    let mut t = Tracker::new(300_000);
    assert_eq!(t.update(1000, "", 0), (0, 0));
    assert_eq!(t.update(1010, "", 0), (10, 10));
}

#[test]
fn tracker_idle_exactly_at_break_breaks() {
    let mut t = Tracker::new(300_000);
    t.update(0, "A", 0);
    assert_eq!(t.update(10, "A", 299_999), (10, 10));
    assert_eq!(t.update(20, "A", 300_000), (0, 20));
    assert_eq!(t.session_id(), 1);
    assert_eq!(t.update(30, "A", 0), (0, 30));
    assert_eq!(t.session_id(), 2);
}

#[test]
fn tracker_reports_whether_an_update_fits() {
    let mut t = Tracker::new(300_000);
    assert!(t.can_update(i64::MAX, "A", 0));
    t.update(-10, "A", 0);
    assert!(!t.can_update(i64::MAX, "A", 0));
    assert!(t.can_update(i64::MAX - 20, "A", 0));
}

// ---------- focus ----------

#[test]
fn focus_keeps_all_unlocked_input() {
    let rows = [
        span(0, 595, "Code", None, 500, 600, false),
        span(600, 610, "Slack", None, 7, 610, false),
        span(615, 1195, "Code", None, 400, 1200, false),
        span(1200, 1795, "Code", None, 300, 1800, true),
        span(1800, 2395, "Mail", None, 11, 2400, false),
    ];
    let b = build_blocks(&rows);
    let total: i64 = b.iter().map(|x| x.active_s).sum();
    assert_eq!(total, 500 + 7 + 400 + 11);
    assert_eq!(b.len(), 2);
    assert_eq!(b[0].app, "Code");
    assert_eq!(b[0].active_s, 907);
    assert_eq!(b[0].len_s(), 1200);
    assert_eq!(b[1].app, "Mail");
}

#[test]
fn focus_titles_add_up_per_title() {
    let rows = [
        span(0, 95, "Code", Some("a.rs"), 100, 100, false),
        span(100, 195, "Code", Some("b.rs"), 100, 200, false),
        span(200, 295, "Code", Some("a.rs"), 100, 300, false),
        span(300, 395, "Code", None, 100, 400, false),
    ];
    let b = build_blocks(&rows);
    assert_eq!(b.len(), 1);
    assert_eq!(b[0].titles, vec![("a.rs".to_string(), 200), ("b.rs".to_string(), 100)]);
    assert_eq!(b[0].top_title(), Some("a.rs"));
}

#[test]
fn top_title_takes_the_last_of_equals() {
    let b = block(0, 0, "X", 0, &[("one", 50), ("two", 80), ("three", 80), ("four", 10)]);
    assert_eq!(b.top_title(), Some("three"));
    assert_eq!(block(0, 0, "X", 0, &[]).top_title(), None);
}

#[test]
fn detour_of_exactly_the_tolerance_is_swallowed() {
    let rows = [
        span(0, 595, "Code", None, 600, 600, false),
        span(600, 655, "Chat", None, 10, 660, false), // 60 s
        span(660, 1195, "Code", None, 500, 1200, false),
    ];
    assert_eq!(build_blocks(&rows).len(), 1);
    let rows = [
        span(0, 595, "Code", None, 600, 600, false),
        span(600, 656, "Chat", None, 10, 661, false), // 61 s
        span(661, 1195, "Code", None, 500, 1200, false),
    ];
    assert_eq!(build_blocks(&rows).len(), 3);
}

#[test]
fn titles_of_a_swallowed_detour_are_left_out() {
    let rows = [
        span(0, 595, "Code", Some("main.rs"), 600, 600, false),
        span(600, 620, "Chat", Some("hi"), 10, 625, false),
        span(625, 1195, "Code", Some("main.rs"), 500, 1200, false),
    ];
    let b = build_blocks(&rows);
    assert_eq!(b.len(), 1);
    assert_eq!(b[0].titles, vec![("main.rs".to_string(), 1175)]);
    assert_eq!(b[0].active_s, 1110);
}

#[test]
fn a_gap_in_the_records_breaks_a_block() {
    let rows = [
        span(0, 595, "Code", None, 600, 600, false),
        span(611, 1195, "Code", None, 500, 1200, false),
    ];
    assert_eq!(build_blocks(&rows).len(), 2);
    let rows = [
        span(0, 595, "Code", None, 600, 600, false),
        span(610, 1195, "Code", None, 500, 1200, false),
    ];
    assert_eq!(build_blocks(&rows).len(), 1);
}

#[test]
fn focus_thresholds() {
    // 15 minutes with half of it typed: the least that counts.
    let b = block(0, 895, "Code", 450, &[]);
    assert_eq!(b.len_s(), 900);
    assert_eq!(b.active_pct(), 50);
    assert!(is_focus(&b));
    assert!(!is_focus(&block(0, 894, "Code", 450, &[])));
    assert!(!is_focus(&block(0, 895, "Code", 449, &[])));
    // Rounding toward zero.
    assert_eq!(block(0, 2, "X", 1, &[]).active_pct(), 14);
    assert_eq!(block(0, 2, "X", -1, &[]).active_pct(), -14);
    assert_eq!(block(0, 0, "X", 0, &[]).len_s(), 5);
    assert!(build_blocks(&[]).is_empty());
}

#[test]
fn overflow_is_refused_only_where_a_sum_leaves_i64() {
    // Times far from the epoch join as any others.
    let far = 8_000_000_000_000_000_000;
    let rows = [
        span(far, far + 595, "Code", Some("a"), 600, 600, false),
        span(far + 600, far + 1195, "Code", Some("a"), 600, 1200, false),
    ];
    let b = try_build_blocks(&rows).unwrap();
    assert_eq!(b.len(), 1);
    assert_eq!(b[0].len_s(), 1200);
    assert_eq!(b[0].titles, vec![("a".to_string(), 1200)]);
    // A span whose length leaves i64.
    assert!(try_build_blocks(&[span(i64::MIN, i64::MAX, "A", None, 0, 0, false)]).is_none());
    // Input time that leaves i64 within one block.
    let rows = [
        span(0, 10, "A", None, i64::MAX, 10, false),
        span(15, 20, "A", None, 1, 20, false),
    ];
    assert!(try_build_blocks(&rows).is_none());
    // The same input in two blocks is fine.
    let rows = [
        span(0, 10, "A", None, i64::MAX, 10, false),
        span(15, 20, "B", None, 1, 20, false),
    ];
    assert_eq!(try_build_blocks(&rows).unwrap().len(), 2);
    assert!(focus_by_app(&vec![block(0, i64::MAX, "A", 0, &[])]).is_none());
    assert!(focus_by_day(&vec![block(i64::MAX - 10, i64::MAX - 5, "A", 0, &[])], 11).is_none());
    assert!(span_fits_check(0, i64::MAX - 5));
    assert!(!span_fits_check(0, i64::MAX - 4));
}

#[test]
fn focus_list_keeps_focus_blocks_in_order() {
    let rows = [
        span(0, 895, "Code", None, 900, 900, false),
        span(900, 1000, "Mail", None, 100, 1000, false),
        span(1100, 1995, "Code", None, 10, 1995, false),
        span(2000, 2895, "Docs", None, 800, 2900, false),
    ];
    let all = build_blocks(&rows);
    let list = focus_list(&rows).unwrap();
    let expected: Vec<Block> = all.into_iter().filter(|b| is_focus(b)).collect();
    assert_eq!(list, expected);
    assert_eq!(list.iter().map(|b| b.app.as_str()).collect::<Vec<_>>(), vec!["Code", "Docs"]);
    // The focus test is exact even where the percentage would leave i64.
    assert!(is_focus(&block(0, 895, "A", i64::MAX, &[])));
    assert!(!is_focus(&block(0, 895, "A", i64::MIN, &[])));
}

// ---------- focus totals ----------

#[test]
fn totals_per_day_and_per_app() {
    let day = 86400;
    let blocks = vec![
        block(0, 995, "Code", 0, &[]),
        block(2000, 2895, "Mail", 0, &[]),
        block(day, day + 1995, "Mail", 0, &[]),
        block(day + 3000, day + 3995, "Code", 0, &[]),
        block(2 * day, 2 * day + 95, "Chat", 0, &[]),
    ];
    let days = focus_by_day(&blocks, 0).unwrap();
    assert_eq!(
        days,
        vec![
            ("01-01".to_string(), 1900, 2),
            ("01-02".to_string(), 3000, 2),
            ("01-03".to_string(), 100, 1)
        ]
    );
    let apps = focus_by_app(&blocks).unwrap();
    let total: i64 = blocks.iter().map(|b| b.len_s()).sum();
    assert_eq!(days.iter().map(|d| d.1).sum::<i64>(), total);
    assert_eq!(days.iter().map(|d| d.2).sum::<i64>(), blocks.len() as i64);
    assert_eq!(apps.iter().map(|a| a.1).sum::<i64>(), total);
    assert_eq!(
        apps,
        vec![("Mail".to_string(), 2900), ("Code".to_string(), 2000), ("Chat".to_string(), 100)]
    );
}

#[test]
fn app_ranking_keeps_first_seen_order_among_equals() {
    let blocks = vec![
        block(0, 95, "B", 0, &[]),
        block(100, 195, "A", 0, &[]),
        block(200, 395, "C", 0, &[]),
    ];
    let apps = focus_by_app(&blocks).unwrap();
    assert_eq!(
        apps,
        vec![("C".to_string(), 200), ("B".to_string(), 100), ("A".to_string(), 100)]
    );
}

// ---------- clock ----------

#[test]
fn integer_parsing_follows_std() {
    assert_eq!(parse_i64("42"), Some(42));
    assert_eq!(parse_i64("+42"), Some(42));
    assert_eq!(parse_i64("-0042"), Some(-42));
    assert_eq!(parse_i64(""), None);
    assert_eq!(parse_i64("+"), None);
    assert_eq!(parse_i64("-"), None);
    assert_eq!(parse_i64("4 2"), None);
    assert_eq!(parse_i64("9223372036854775807"), Some(i64::MAX));
    assert_eq!(parse_i64("9223372036854775808"), None);
    assert_eq!(parse_i64("-9223372036854775808"), Some(i64::MIN));
    assert_eq!(parse_i64("-9223372036854775809"), None);
    assert_eq!(parse_i64("99999999999999999999999999"), None);
    for s in ["7", "-13", "+0", "12x", "", "٣"] {
        assert_eq!(parse_i64(s), s.parse::<i64>().ok(), "{s}");
    }
}

#[test]
fn offsets() {
    assert_eq!(parse_offset("+0000"), 0);
    assert_eq!(parse_offset("-0930"), -(9 * 3600 + 30 * 60));
    assert_eq!(parse_offset("+1234"), 12 * 3600 + 34 * 60);
    assert_eq!(parse_offset("-3600"), -(36 * 3600));
    assert_eq!(parse_offset("1234"), 1234);
    assert_eq!(parse_offset(""), 0);
}

#[test]
fn local_clock() {
    assert_eq!(local_hour(0, 32400), 9);
    assert_eq!(local_hour(-1, 0), 23);
    assert_eq!(local_hour(3599, 0), 0);
    assert_eq!(hhmm(0, 32400), "09:00");
    assert_eq!(hhmm(-1, 0), "23:59");
    assert_eq!(hhmmss(3725, 0), "01:02:05");
    assert_eq!(hhmmss(-1, 0), "23:59:59");
}

#[test]
fn calendar_days() {
    assert_eq!(mmdd(0, 0), "01-01");
    assert_eq!(mmdd(-1, 0), "12-31");
    assert_eq!(mmdd(59 * 86400, 0), "03-01");
    assert_eq!(mmdd(11016 * 86400, 0), "02-29"); // 2000-02-29
    assert_eq!(mmdd(1_700_000_000, 0), "11-14"); // 2023-11-14
    assert_eq!(mmdd(1_700_000_000, 32400), "11-15");
    assert_eq!(mmdd(-719_162 * 86400, 0), "01-01"); // 0001-01-01
}

// ---------- text ----------

#[test]
fn durations() {
    assert_eq!(dur(59), "0분59초");
    assert_eq!(dur(3599), "59분59초");
    assert_eq!(dur(3600), "1시간00분");
    assert_eq!(dur(90061), "25시간01분");
    assert_eq!(dur(-65), "-1분-5초");
    assert_eq!(dur(-5), "0분-5초");
}

#[test]
fn truncation_counts_characters() {
    assert_eq!(trunc("abcdef", 3), "ab…");
    assert_eq!(trunc("abc", 3), "abc");
    assert_eq!(trunc("abc", 1), "…");
    assert_eq!(trunc("abc", 0), "…");
    assert_eq!(trunc("", 0), "");
}

#[test]
fn escaping() {
    assert_eq!(jstr("\\"), "\"\\\\\"");
    assert_eq!(jstr("a\nb\tc\r"), "\"a\\nb\\tc\\r\"");
    assert_eq!(jstr("\u{1}\u{1f}"), "\"\\u0001\\u001f\"");
    assert_eq!(jstr("\u{7f}"), "\"\u{7f}\"");
    assert!(!jstr("x\ny\u{0}z").chars().any(|c| (c as u32) < 0x20));
    assert_eq!(csv("a\"b"), "\"a\"\"b\"");
    assert_eq!(csv(""), "\"\"");
}

#[test]
fn small_text_pieces() {
    assert_eq!(bar_cells(0), "█");
    assert_eq!(bar_cells(3), "███");
    assert_eq!(center("ab", 7, '-'), "--ab---");
    assert_eq!(center("abcdef", 3, '-'), "abcdef");
    assert_eq!(int_text(-120), "-120");
    assert_eq!(int_text(i64::MIN), "-9223372036854775808");
    assert_eq!(trim("\u{3000} a b \n"), "a b");
    assert_eq!(non_empty(" \t\u{a0}".to_string()), None);
    assert_eq!(non_empty(" x ".to_string()), Some(" x ".to_string()));
    assert_eq!(window_parts("  Code \n", "\t".to_string()), ("Code".to_string(), None));
    assert_eq!(
        window_parts("Slack", "#general".to_string()),
        ("Slack".to_string(), Some("#general".to_string()))
    );
}

// ---------- collector ----------

fn key(app: &str, hour: i64) -> Key {
    Key { app: app.into(), title: None, hour, session: 1, locked: false }
}

#[test]
fn spans_extend_until_the_key_changes() {
    let mut log = SpanLog::new();
    assert!(matches!(log.sample(&key("A", 9), 5), SpanWrite::Insert));
    log.opened(7, &key("A", 9), 5);
    assert!(matches!(log.sample(&key("A", 9), 5), SpanWrite::Extend { id: 7, active_s: 10 }));
    assert!(matches!(log.sample(&key("A", 9), 0), SpanWrite::Extend { id: 7, active_s: 10 }));
    // The hour changed: a new span.
    assert!(matches!(log.sample(&key("A", 10), 5), SpanWrite::Insert));
    // A failed insert leaves the old span open.
    assert!(matches!(log.sample(&key("A", 9), 5), SpanWrite::Extend { id: 7, active_s: 15 }));
    assert!(key("A", 9).same_as(&key("A", 9)));
    assert!(!key("A", 9).same_as(&Key { title: Some("t".into()), ..key("A", 9) }));
    assert_eq!(active_seconds(59_999), 5);
    assert_eq!(active_seconds(60_000), 0);
}

#[test]
fn look_back() {
    assert_eq!(days_back(1_000_000, 7), Some(1_000_000 - 7 * 86400));
    assert_eq!(days_back(0, i64::MAX), None);
    assert_eq!(days_back(i64::MIN, 1), None);
}

// ---------- reports ----------

fn record() -> Record {
    Record {
        start_t: 1_790_176_043,
        end_t: 1_790_176_088,
        app: "Slack".into(),
        title: Some("#general".into()),
        hour: 10,
        active_s: 40,
        idle: "11.6".into(),
        session_s: 661,
        app_s: 120,
        locked: false,
    }
}

#[test]
fn now_line() {
    assert_eq!(
        now_json(&record(), 1_790_176_089),
        "{\"t\":1790176088,\"age_s\":1,\"app\":\"Slack\",\"title\":\"#general\",\"idle_s\":11.6,\"hour\":10,\
\"session_s\":661,\"app_s\":120,\"span_s\":50,\"span_active_s\":40,\"locked\":false}"
    );
    let r = Record { title: None, locked: true, idle: "0.3".into(), ..record() };
    let s = now_json(&r, 1_790_176_088);
    assert!(s.contains("\"title\":null") && s.contains("\"idle_s\":0.3") && s.ends_with("\"locked\":true}"));
    assert_eq!(span_seconds(10, 10), 5);
}

#[test]
fn export_row() {
    assert_eq!(
        export_line(&record()),
        "1790176043,1790176088,50,\"Slack\",\"#general\",10,40,11.6,661,120,0"
    );
    let r = Record { title: None, locked: true, ..record() };
    assert_eq!(export_line(&r), "1790176043,1790176088,50,\"Slack\",\"\",10,40,11.6,661,120,1");
}

#[test]
fn log_marks_gaps() {
    let a = Record { start_t: 0, end_t: 95, active_s: 60, ..record() };
    let b = Record { start_t: 120, end_t: 215, title: None, ..record() };
    let c = Record { start_t: 230, end_t: 230, locked: true, ..record() };
    let rows = vec![a, b, c];
    assert!(log_fits_check(&rows, 0));
    assert!(!log_fits_check(&rows, i64::MAX));
    let lines = log_lines(&rows, 0);
    assert_eq!(lines.len(), 4);
    assert_eq!(lines[0], "00:00:00~00:01:35    1분40초    1분00초  Slack            #general");
    assert_eq!(lines[1], gap_line(25));
    assert_eq!(lines[1].chars().count(), 78);
    assert!(lines[1].contains(" 기록 끊김 0분25초 "));
    assert!(lines[2].ends_with("(제목 없음)"));
    assert!(lines[3].ends_with("[화면 잠김]"));
}

#[test]
fn hour_table_and_scale() {
    let h = hour_totals(&vec![(3, 100), (25, 9), (-1, 9), (7, 40), (3, 50)]);
    assert_eq!(h.len(), 24);
    assert_eq!(h[3], 50);
    assert_eq!(h[7], 40);
    assert_eq!(h.iter().sum::<i64>(), 90);
    assert_eq!(peak(&h), 50);
    assert_eq!(peak(&vec![0, 0]), 1);
    assert_eq!(peak(&vec![]), 1);
}

#[test]
fn health_verdicts() {
    assert!(matches!(collector_status(100, Some(85)), Collector::Running { age: 15 }));
    assert!(matches!(collector_status(100, Some(84)), Collector::Stopped { age: 16 }));
    assert!(matches!(collector_status(100, None), Collector::Empty));
    assert_eq!(untitled_pct(0, 0), None);
    assert_eq!(untitled_pct(3, 2), Some(66));
    assert!(titles_missing(12, 0, true));
    assert!(!titles_missing(12, 1, true));
    assert!(!titles_missing(0, 0, true));
    assert!(!titles_missing(12, 0, false));
    assert_eq!(label_value(Some("yes")), Some(1));
    assert_eq!(label_value(Some("no")), Some(0));
    assert_eq!(label_value(Some("maybe")), None);
    assert_eq!(label_value(None), None);
}
