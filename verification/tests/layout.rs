use desklog::focus::{build_blocks, Block, Row};
use desklog::lines::{
    collector_line, focus_app_line, focus_block_line, focus_day_line, focus_header,
    focus_line_fits_check, top_app_line, top_header, top_hour_line, top_title_line,
    top_titles_heading, untitled_line,
};
use desklog::report::Collector;
use desklog::span::{window_step, with_frontmost, Key, SpanLog, SpanWrite, WindowStep};
use desklog::text::jstr;
use desklog::tracker::Tracker;

fn row(start: i64, end: i64, app: &str, active: i64, locked: bool) -> Row {
    Row {
        start_t: start,
        end_t: end,
        app: app.into(),
        title: None,
        active_s: active,
        session_s: 0,
        locked,
    }
}

fn block(start: i64, end: i64, app: &str, active: i64, titles: &[(&str, i64)]) -> Block {
    Block {
        start_t: start,
        end_t: end,
        app: app.into(),
        active_s: active,
        titles: titles.iter().map(|(t, s)| (t.to_string(), *s)).collect(),
    }
}

// ---------- top ----------

#[test]
fn top_heading() {
    assert_eq!(
        top_header(7, None, 3725, 65, 0, 1000, 8200),
        "\n최근 7일 · 최전면 1시간02분 · 그중 입력 1분05초 · 화면 잠김 0분00초 · 구간 2시간00분\n"
    );
    assert_eq!(
        top_header(1, Some("Slack"), 60, 5, 30, 0, 59),
        "\n최근 1일 · Slack · 최전면 1분00초 · 그중 입력 0분05초 · 화면 잠김 0분30초 · 구간 0분59초\n"
    );
}

#[test]
fn top_rows() {
    assert_eq!(
        top_app_line("Slack", 65, 3725, "██"),
        format!("  {:<20} {:>8} / {:>8}  {}", "Slack", "1분05초", "1시간02분", "██")
    );
    let long = "a".repeat(25);
    assert_eq!(
        top_app_line(&long, 0, 5, "█"),
        format!("  {}… {:>8} / {:>8}  █", "a".repeat(19), "0분00초", "0분05초")
    );
    assert_eq!(top_hour_line(9, 300, "█"), format!("  {:02}시 {:>8}  {}", 9, "5분00초", "█"));
    assert_eq!(top_hour_line(23, 3600, "██"), "  23시   1시간00분  ██");
    assert_eq!(top_titles_heading("Slack"), "\n'Slack' 안에서 본 창 제목");
    assert_eq!(top_title_line("#general", 65), format!("  {:>8}  {}", "1분05초", "#general"));
    let title = "t".repeat(70);
    assert_eq!(
        top_title_line(&title, 5),
        format!("  {:>8}  {}…", "0분05초", "t".repeat(59))
    );
}

// ---------- focus ----------

#[test]
fn focus_heading() {
    assert_eq!(
        focus_header(7),
        "\n최근 7일 · 몰입 기준: 한 앱에 15분 이상, 그중 입력 50% 이상, 60초 이하 딴짓은 무시\n"
    );
}

#[test]
fn focus_rows() {
    let b = block(0, 1795, "Code", 900, &[("main.rs", 1200), ("lib.rs", 600)]);
    assert!(focus_line_fits_check(&b, 0));
    assert_eq!(
        focus_block_line(&b, 0),
        format!(
            "{:<6} {}~{} {:>8} {:>4}%  {:<16} {}",
            "01-01", "00:00", "00:29", "30분00초", 50, "Code", "main.rs"
        )
    );
    // Nine hours east of UTC, and a block without titles.
    let b = block(86400, 86400 + 3595, "Terminal", 3600, &[]);
    assert_eq!(
        focus_block_line(&b, 9 * 3600),
        format!(
            "{:<6} {}~{} {:>8} {:>4}%  {:<16} {}",
            "01-02", "09:00", "09:59", "1시간00분", 100, "Terminal", "-"
        )
    );
    assert!(!focus_line_fits_check(&block(0, i64::MAX, "A", 0, &[]), 0));
    assert!(!focus_line_fits_check(&block(0, 10, "A", 0, &[]), i64::MAX));
    assert!(!focus_line_fits_check(&block(0, 10, "A", i64::MAX, &[]), 0));
    assert_eq!(
        focus_day_line("05-13", 3600, 2),
        format!("  {}  {:>8}  (구간 {}개)", "05-13", "1시간00분", 2)
    );
    assert_eq!(
        focus_app_line("Code", 1800, "███"),
        format!("  {:<16} {:>8}  {}", "Code", "30분00초", "███")
    );
}

// ---------- doctor ----------

#[test]
fn doctor_lines() {
    assert_eq!(
        collector_line(&Collector::Running { age: 3 }, 12),
        "수집기      돌고 있다 (3초 전 기록, 구간 12개)"
    );
    assert_eq!(
        collector_line(&Collector::Stopped { age: 3725 }, 12),
        "수집기      ✗ 멈춰 있다 — 마지막 기록 1시간02분 전. brew services restart desklog"
    );
    assert_eq!(
        collector_line(&Collector::Empty, 0),
        "수집기      ✗ 기록이 하나도 없다 — desklog watch 를 띄워라"
    );
    assert_eq!(untitled_line(95), "최근 1시간   제목 없는 비율 95%");
}

// ---------- the active window ----------

#[test]
fn window_query_steps() {
    match window_step(None) {
        WindowStep::AskFrontmost { title } => assert_eq!(title, None),
        WindowStep::Known { .. } => panic!("a failed query names no app"),
    }
    match window_step(Some(("  ".to_string(), "Doc".to_string()))) {
        WindowStep::AskFrontmost { title } => assert_eq!(title, Some("Doc".to_string())),
        WindowStep::Known { .. } => panic!("an empty app name names no app"),
    }
    match window_step(Some((" Code ".to_string(), " ".to_string()))) {
        WindowStep::Known { app, title } => {
            assert_eq!(app, "Code");
            assert_eq!(title, None);
        }
        WindowStep::AskFrontmost { .. } => panic!("the window named its app"),
    }
    assert_eq!(
        with_frontmost(Some("Doc".to_string()), Some("Finder".to_string())),
        Some(("Finder".to_string(), Some("Doc".to_string())))
    );
    assert_eq!(with_frontmost(Some("Doc".to_string()), None), None);
}

// ---------- laws on concrete values ----------

fn key(app: &str) -> Key {
    Key { app: app.into(), title: None, hour: 9, session: 1, locked: false }
}

#[test]
fn a_row_is_inserted_exactly_when_the_key_changes() {
    let mut log = SpanLog::new();
    let keys = [key("A"), key("A"), key("B"), key("B"), key("A")];
    let mut inserted = Vec::new();
    let mut next_id = 1;
    for k in &keys {
        match log.sample(k, 5) {
            SpanWrite::Insert => {
                log.opened(next_id, k, 5);
                next_id += 1;
                inserted.push(true);
            }
            SpanWrite::Extend { .. } => inserted.push(false),
        }
    }
    assert_eq!(inserted, vec![true, false, true, false, true]);
    // The open row is the last one inserted, with the input of its run.
    assert!(matches!(log.sample(&key("A"), 0), SpanWrite::Extend { id: 3, active_s: 5 }));
    assert!(matches!(log.sample(&key("A"), 5), SpanWrite::Extend { id: 3, active_s: 10 }));
}

#[test]
fn blocks_are_empty_exactly_when_every_span_is_locked() {
    let locked = [row(0, 95, "A", 100, true), row(100, 195, "B", 100, true)];
    assert!(build_blocks(&locked).is_empty());
    let one_open = [row(0, 95, "A", 100, true), row(100, 195, "B", 0, false)];
    assert_eq!(build_blocks(&one_open).len(), 1);
}

#[test]
fn blocks_come_in_the_order_of_their_spans() {
    let rows = [
        row(0, 95, "A", 100, false),
        row(100, 195, "B", 100, false),
        row(200, 295, "C", 100, true),
        row(300, 395, "D", 100, false),
    ];
    let blocks = build_blocks(&rows);
    assert_eq!(blocks.iter().map(|b| b.app.as_str()).collect::<Vec<_>>(), vec!["A", "B", "D"]);
    assert!(blocks.windows(2).all(|w| w[0].end_t <= w[1].start_t));
}

#[test]
fn session_number_grows_where_a_run_with_input_begins() {
    let mut t = Tracker::new(300_000);
    t.update(0, "A", 0);
    assert_eq!(t.session_id(), 1);
    t.update(5, "A", 1_000);
    assert_eq!(t.session_id(), 1);
    assert_eq!(t.update(10, "A", 300_000), (0, 10));
    assert_eq!(t.session_id(), 1);
    assert_eq!(t.update(15, "A", 0), (0, 15));
    assert_eq!(t.session_id(), 2);
    assert_eq!(t.update(20, "A", 0), (5, 20));
    assert_eq!(t.session_id(), 2);
}

#[test]
fn escaped_titles_decode_back() {
    // Undoing each escape of the output gives back the title.
    let title = "say \"hi\"\\ \n\t\r\u{1}é";
    let lit = jstr(title);
    assert!(lit.starts_with('"') && lit.ends_with('"'));
    let body: Vec<char> = lit[1..lit.len() - 1].chars().collect();
    let mut out = String::new();
    let mut i = 0;
    while i < body.len() {
        if body[i] == '\\' {
            match body[i + 1] {
                'n' => out.push('\n'),
                't' => out.push('\t'),
                'r' => out.push('\r'),
                '"' => out.push('"'),
                '\\' => out.push('\\'),
                'u' => {
                    let hex: String = body[i + 2..i + 6].iter().collect();
                    out.push(char::from_u32(u32::from_str_radix(&hex, 16).unwrap()).unwrap());
                    i += 4;
                }
                c => panic!("unexpected escape {c}"),
            }
            i += 2;
        } else {
            out.push(body[i]);
            i += 1;
        }
    }
    assert_eq!(out, title);
}
