use desklog::clock::parse_offset;
use desklog::focus::{build_blocks, is_focus, Row};
use desklog::text::{dur, jstr, trunc};
use desklog::tracker::Tracker;
use desklog::HELP;

/// Idle seconds as the milliseconds that the tracker takes.
fn ms(secs: f64) -> u64 {
    (secs * 1000.0) as u64
}

#[test]
fn session_breaks_after_idle_and_app_time_resets_on_switch() {
    let mut t = Tracker::new(ms(300.0));

    // 활동 시작
    assert_eq!(t.update(1000, "Chrome", ms(1.0)), (0, 0));
    assert_eq!(t.update(1060, "Chrome", ms(2.0)), (60, 60));

    // 앱만 바뀌면 세션은 유지되고 앱 시간만 초기화
    assert_eq!(t.update(1120, "TradingView", ms(2.0)), (120, 0));
    assert_eq!(t.update(1180, "TradingView", ms(2.0)), (180, 60));

    let sid = t.session_id();

    // 5분 넘게 자리 비움 → 세션 끊김
    assert_eq!(t.update(1500, "TradingView", ms(301.0)), (0, 380));

    // 돌아오면 세션이 새로 시작하고, 구간도 갈린다
    assert_eq!(t.update(1560, "TradingView", ms(1.0)), (0, 440));
    assert_eq!(t.session_id(), sid + 1, "세션이 다시 시작되면 번호가 올라가야 한다");
    assert_eq!(t.update(1620, "TradingView", ms(1.0)), (60, 500));
}

#[test]
fn utc_offset_parsing() {
    assert_eq!(parse_offset("+0900"), 32400);
    assert_eq!(parse_offset("-0500"), -18000);
    assert_eq!(parse_offset("+0530"), 19800);
    assert_eq!(parse_offset("32400"), 32400);
    assert_eq!(parse_offset("garbage"), 0);
}

fn row(start: i64, end: i64, app: &str, active: i64, session: i64, locked: bool) -> Row {
    Row {
        start_t: start,
        end_t: end,
        app: app.into(),
        title: None,
        active_s: active,
        session_s: session,
        locked,
    }
}

#[test]
fn focus_needs_input_not_just_a_window() {
    // 같은 앱 60분, 입력 0 → 몰입 아님 (자리를 비웠거나 보고만 있었다)
    let staring = build_blocks(&[row(0, 3595, "Chrome", 0, 3600, false)]);
    assert_eq!(staring.len(), 1);
    assert!(!is_focus(&staring[0]), "입력 없는 60분은 몰입이 아니다");

    // 같은 앱 30분, 입력 25분 → 몰입
    let working = build_blocks(&[row(0, 1795, "Code", 1500, 1800, false)]);
    assert!(is_focus(&working[0]));
}

#[test]
fn focus_joins_hour_splits_and_swallows_short_detours() {
    let rows = [
        row(0, 595, "Code", 600, 600, false),      // 10분
        row(600, 1195, "Code", 600, 1200, false),  // 시(hour) 경계로 잘린 다음 10분
        row(1200, 1220, "카카오톡", 25, 1225, false), // 25초 알림 확인
        row(1225, 1795, "Code", 570, 1800, false), // 다시 10분
    ];
    let b = build_blocks(&rows);
    assert_eq!(b.len(), 1, "시 경계와 짧은 딴짓을 넘어 하나로 붙어야 한다: {b:?}");
    assert_eq!(b[0].len_s(), 1800);
    assert!(is_focus(&b[0]));
}

#[test]
fn focus_breaks_on_session_restart_and_lock() {
    let rows = [
        row(0, 1795, "Code", 1800, 1800, false),
        row(1800, 2395, "Code", 0, 0, false), // session_s 가 0 으로 돌아왔다 = 자리 비웠다 돌아옴
        row(2400, 2995, "Code", 600, 600, true), // 잠김
    ];
    let b = build_blocks(&rows);
    assert_eq!(b.len(), 2, "세션 재시작에서 끊기고 잠긴 구간은 빠져야 한다: {b:?}");
    assert_eq!(b[0].len_s(), 1800);
}

#[test]
fn help_lists_every_command() {
    for cmd in ["watch", "now", "live", "log", "top", "label", "export", "doctor", "focus"] {
        assert!(HELP.contains(cmd), "도움말에 {cmd} 가 빠졌다");
    }
    assert!(HELP.contains("--help") && HELP.contains("--version"));
}

#[test]
fn duration_and_truncation() {
    assert_eq!(dur(0), "0분00초");
    assert_eq!(dur(95), "1분35초");
    assert_eq!(dur(3725), "1시간02분");
    assert_eq!(trunc("짧다", 10), "짧다");
    assert_eq!(trunc("한글여덟글자입니다", 5), "한글여덟…");
}

#[test]
fn json_escapes_titles_with_quotes() {
    assert_eq!(jstr("a\"b"), "\"a\\\"b\"");
    assert_eq!(jstr("한글 - Chrome"), "\"한글 - Chrome\"");
}
