//! The printed lines of the `top`, `focus` and `doctor` reports. The totals
//! come from the store or from the summaries; these functions lay them out.

use vstd::prelude::*;
use crate::text::{
    tdiv, push_int, push_seq, push_pad2, push_right, push_left, dur, trunc, signed_decimal,
    pad2, dur_text, trunc_text, align_right, align_left,
};
use crate::clock::{mmdd, hhmm, mmdd_text, hhmm_text, shift_fits};
use crate::focus::{
    Block, BlockView, SAMPLE_S, block_len, block_active_pct, len_fits, fits_i64, top_index, FOCUS_MIN_S,
    FOCUS_MIN_ACTIVE_PCT, FOCUS_GAP_TOLERANCE_S,
};
use crate::report::Collector;

verus! {

// ---------- top ----------

/// The heading of `top`: the look-back, the app it is narrowed to, the time
/// in front and with input, the locked time, and the stretch from the first
/// record to the last (`span` seconds).
pub open spec fn top_header_text(
    days: int,
    only: Option<Seq<char>>,
    front: int,
    typed: int,
    locked: int,
    span: int,
) -> Seq<char> {
    "\n최근 "@ + signed_decimal(days) + "일"@ + (match only {
        Some(a) => " · "@ + a,
        None => Seq::empty(),
    }) + " · 최전면 "@ + dur_text(front) + " · 그중 입력 "@ + dur_text(typed) + " · 화면 잠김 "@
        + dur_text(locked) + " · 구간 "@ + dur_text(span) + "\n"@
}

/// The heading of `top` for records from `first` to `last`.
pub fn top_header(
    days: i64,
    only: Option<&str>,
    front: i64,
    typed: i64,
    locked: i64,
    first: i64,
    last: i64,
) -> (s: String)
    requires
        fits_i64(last - first),
    ensures
        s@ == top_header_text(
            days as int,
            match only {
                Some(a) => Some(a@),
                None => None,
            },
            front as int,
            typed as int,
            locked as int,
            last - first,
        ),
{
    let mut s = String::new();
    push_seq(&mut s, "\n최근 ");
    push_int(&mut s, days);
    push_seq(&mut s, "일");
    match only {
        Some(a) => {
            push_seq(&mut s, " · ");
            push_seq(&mut s, a);
        },
        None => {},
    }
    push_seq(&mut s, " · 최전면 ");
    let d = dur(front);
    push_seq(&mut s, d.as_str());
    push_seq(&mut s, " · 그중 입력 ");
    let d = dur(typed);
    push_seq(&mut s, d.as_str());
    push_seq(&mut s, " · 화면 잠김 ");
    let d = dur(locked);
    push_seq(&mut s, d.as_str());
    push_seq(&mut s, " · 구간 ");
    let d = dur(last - first);
    push_seq(&mut s, d.as_str());
    push_seq(&mut s, "\n");
    proof {
        let o = match only {
            Some(a) => Some(a@),
            None => None,
        };
        assert(s@ =~= top_header_text(
            days as int,
            o,
            front as int,
            typed as int,
            locked as int,
            last - first,
        ));
    }
    s
}

/// One app of `top`: its name, its time with input and in front, and its bar.
pub open spec fn top_app_text(app: Seq<char>, typed: int, front: int, bar: Seq<char>) -> Seq<
    char,
> {
    "  "@ + align_left(trunc_text(app, 20), 20) + " "@ + align_right(dur_text(typed), 8) + " / "@
        + align_right(dur_text(front), 8) + "  "@ + bar
}

/// The line of `top` for one app.
pub fn top_app_line(app: &str, typed: i64, front: i64, bar: &str) -> (s: String)
    ensures
        s@ == top_app_text(app@, typed as int, front as int, bar@),
{
    let mut s = String::new();
    push_seq(&mut s, "  ");
    let a = trunc(app, 20);
    push_left(&mut s, a.as_str(), 20);
    push_seq(&mut s, " ");
    let d = dur(typed);
    push_right(&mut s, d.as_str(), 8);
    push_seq(&mut s, " / ");
    let d = dur(front);
    push_right(&mut s, d.as_str(), 8);
    push_seq(&mut s, "  ");
    push_seq(&mut s, bar);
    assert(s@ =~= top_app_text(app@, typed as int, front as int, bar@));
    s
}

/// One hour of the day in `top`: the hour, its time with input, and its bar.
pub open spec fn top_hour_text(hour: int, secs: int, bar: Seq<char>) -> Seq<char> {
    "  "@ + pad2(hour) + "시 "@ + align_right(dur_text(secs), 8) + "  "@ + bar
}

/// The line of `top` for one hour of the day.
pub fn top_hour_line(hour: i64, secs: i64, bar: &str) -> (s: String)
    ensures
        s@ == top_hour_text(hour as int, secs as int, bar@),
{
    let mut s = String::new();
    push_seq(&mut s, "  ");
    push_pad2(&mut s, hour);
    push_seq(&mut s, "시 ");
    let d = dur(secs);
    push_right(&mut s, d.as_str(), 8);
    push_seq(&mut s, "  ");
    push_seq(&mut s, bar);
    assert(s@ =~= top_hour_text(hour as int, secs as int, bar@));
    s
}

/// The heading over the window titles seen in the first app of `top`.
pub open spec fn top_titles_heading_text(app: Seq<char>) -> Seq<char> {
    "\n'"@ + app + "' 안에서 본 창 제목"@
}

/// The heading of the window titles of `app`.
pub fn top_titles_heading(app: &str) -> (s: String)
    ensures
        s@ == top_titles_heading_text(app@),
{
    let mut s = String::new();
    push_seq(&mut s, "\n'");
    push_seq(&mut s, app);
    push_seq(&mut s, "' 안에서 본 창 제목");
    assert(s@ =~= top_titles_heading_text(app@));
    s
}

/// One window title of `top`: the time under it and the (cut) title.
pub open spec fn top_title_text(title: Seq<char>, secs: int) -> Seq<char> {
    "  "@ + align_right(dur_text(secs), 8) + "  "@ + trunc_text(title, 60)
}

/// The line of `top` for one window title.
pub fn top_title_line(title: &str, secs: i64) -> (s: String)
    ensures
        s@ == top_title_text(title@, secs as int),
{
    let mut s = String::new();
    push_seq(&mut s, "  ");
    let d = dur(secs);
    push_right(&mut s, d.as_str(), 8);
    push_seq(&mut s, "  ");
    let t = trunc(title, 60);
    push_seq(&mut s, t.as_str());
    assert(s@ =~= top_title_text(title@, secs as int));
    s
}

// ---------- focus ----------

/// The heading of `focus`: the look-back and what counts as focus.
pub open spec fn focus_header_text(days: int) -> Seq<char> {
    "\n최근 "@ + signed_decimal(days) + "일 · 몰입 기준: 한 앱에 "@ + signed_decimal(
        FOCUS_MIN_S / 60,
    ) + "분 이상, 그중 입력 "@ + signed_decimal(FOCUS_MIN_ACTIVE_PCT as int) + "% 이상, "@
        + signed_decimal(FOCUS_GAP_TOLERANCE_S as int) + "초 이하 딴짓은 무시\n"@
}

/// The heading of `focus` for a look-back of `days` days.
pub fn focus_header(days: i64) -> (s: String)
    ensures
        s@ == focus_header_text(days as int),
{
    let mut s = String::new();
    push_seq(&mut s, "\n최근 ");
    push_int(&mut s, days);
    push_seq(&mut s, "일 · 몰입 기준: 한 앱에 ");
    push_int(&mut s, FOCUS_MIN_S / 60);
    push_seq(&mut s, "분 이상, 그중 입력 ");
    push_int(&mut s, FOCUS_MIN_ACTIVE_PCT);
    push_seq(&mut s, "% 이상, ");
    push_int(&mut s, FOCUS_GAP_TOLERANCE_S);
    push_seq(&mut s, "초 이하 딴짓은 무시\n");
    assert(s@ =~= focus_header_text(days as int));
    s
}

/// The title that names a block in `focus`, or `-` for a block without titles.
pub open spec fn block_title_text(b: BlockView) -> Seq<char> {
    if b.titles.len() == 0 {
        "-"@
    } else {
        b.titles[top_index(b.titles)].0
    }
}

/// One block of `focus`: its day, its clock times, its length, its share
/// with input, its app and the title it spent longest under.
pub open spec fn focus_block_text(b: BlockView, offset: int) -> Seq<char> {
    align_left(mmdd_text(b.start_t, offset), 6) + " "@ + hhmm_text(b.start_t, offset) + "~"@
        + hhmm_text(b.end_t, offset) + " "@ + align_right(dur_text(block_len(b)), 8) + " "@
        + align_right(signed_decimal(block_active_pct(b)), 4) + "%  "@ + align_left(
        trunc_text(b.app, 16),
        16,
    ) + " "@ + trunc_text(block_title_text(b), 36)
}

/// The line of a block can be computed in `i64`: its local clock times, its
/// length and its share with input.
pub open spec fn focus_line_fits(b: BlockView, offset: int) -> bool {
    &&& fits_i64(b.start_t + offset)
    &&& fits_i64(b.end_t + offset)
    &&& len_fits(b)
    &&& fits_i64(b.active_s * 100)
}

/// Whether `focus_block_line` can take this block.
pub fn focus_line_fits_check(b: &Block, offset: i64) -> (r: bool)
    ensures
        r == focus_line_fits(b@, offset as int),
{
    let a: i128 = b.start_t as i128 + offset as i128;
    let e: i128 = b.end_t as i128 + offset as i128;
    let d: i128 = b.end_t as i128 - b.start_t as i128;
    let l: i128 = d + SAMPLE_S as i128;
    let p: i128 = b.active_s as i128 * 100;
    let lo: i128 = i64::MIN as i128;
    let hi: i128 = i64::MAX as i128;
    lo <= a && a <= hi && lo <= e && e <= hi && lo <= d && d <= hi && lo <= l && l <= hi && lo <= p
        && p <= hi
}

/// The line of `focus` for a block.
pub fn focus_block_line(b: &Block, offset: i64) -> (s: String)
    requires
        focus_line_fits(b@, offset as int),
    ensures
        s@ == focus_block_text(b@, offset as int),
{
    let mut s = String::new();
    let day = mmdd(b.start_t, offset);
    push_left(&mut s, day.as_str(), 6);
    push_seq(&mut s, " ");
    let a = hhmm(b.start_t, offset);
    push_seq(&mut s, a.as_str());
    push_seq(&mut s, "~");
    let e = hhmm(b.end_t, offset);
    push_seq(&mut s, e.as_str());
    push_seq(&mut s, " ");
    let d = dur(b.len_s());
    push_right(&mut s, d.as_str(), 8);
    push_seq(&mut s, " ");
    let mut pct = String::new();
    push_int(&mut pct, b.active_pct());
    push_right(&mut s, pct.as_str(), 4);
    push_seq(&mut s, "%  ");
    let app = trunc(b.app.as_str(), 16);
    push_left(&mut s, app.as_str(), 16);
    push_seq(&mut s, " ");
    let t = match b.top_title() {
        Some(t) => trunc(t, 36),
        None => trunc("-", 36),
    };
    push_seq(&mut s, t.as_str());
    assert(s@ =~= focus_block_text(b@, offset as int));
    s
}

/// `s` ends in `t`.
pub open spec fn ends_with(s: Seq<char>, t: Seq<char>) -> bool {
    t.len() <= s.len() && s.subrange(s.len() - t.len(), s.len() as int) == t
}

/// The line of a block ends in the title the block spent the most time under:
/// no title of the block has more seconds, and every later title has fewer
/// (the last of equals). A block without titles ends in `-`.
pub proof fn lemma_focus_line_names_longest_title(b: BlockView, offset: int)
    ensures
        b.titles.len() == 0 ==> ends_with(focus_block_text(b, offset), trunc_text("-"@, 36)),
        b.titles.len() > 0 ==> exists|j: int|
            0 <= j < b.titles.len() && ends_with(
                focus_block_text(b, offset),
                trunc_text(#[trigger] b.titles[j].0, 36),
            ) && (forall|k: int| 0 <= k < b.titles.len() ==> b.titles[k].1 <= b.titles[j].1) && (
            forall|k: int| j < k < b.titles.len() ==> b.titles[k].1 < b.titles[j].1),
{
    let x = align_left(mmdd_text(b.start_t, offset), 6) + " "@ + hhmm_text(b.start_t, offset)
        + "~"@ + hhmm_text(b.end_t, offset) + " "@ + align_right(dur_text(block_len(b)), 8) + " "@
        + align_right(signed_decimal(block_active_pct(b)), 4) + "%  "@ + align_left(
        trunc_text(b.app, 16),
        16,
    ) + " "@;
    let t = trunc_text(block_title_text(b), 36);
    let line = focus_block_text(b, offset);
    assert(line == x + t);
    assert(line.subrange(line.len() - t.len(), line.len() as int) =~= t);
    if b.titles.len() > 0 {
        crate::focus::lemma_top_index_longest(b.titles);
        let j = top_index(b.titles);
        assert(forall|k: int| 0 <= k < b.titles.len() ==> #[trigger] b.titles[k].1 <= b.titles[j].1);
        assert(forall|k: int| j < k < b.titles.len() ==> #[trigger] b.titles[k].1 < b.titles[j].1);
        assert(ends_with(line, trunc_text(b.titles[j].0, 36)));
    }
}

/// The line of a block, column by column: the local day and clock times of
/// its start and end, its length counting the last sample, its share with
/// input in percent (rounded toward zero), its app, and the title it spent
/// the most time under (the last of equals), or `-` without titles.
pub proof fn lemma_focus_line_fields(b: BlockView, offset: int)
    ensures
        ({
            let len = b.end_t - b.start_t + SAMPLE_S;
            let head = align_left(mmdd_text(b.start_t, offset), 6) + " "@ + hhmm_text(b.start_t, offset)
                + "~"@ + hhmm_text(b.end_t, offset) + " "@ + align_right(dur_text(len), 8) + " "@
                + align_right(signed_decimal(tdiv(b.active_s * 100, if len >= 1 { len } else { 1 })), 4)
                + "%  "@ + align_left(trunc_text(b.app, 16), 16) + " "@;
            &&& b.titles.len() == 0 ==> focus_block_text(b, offset) == head + trunc_text("-"@, 36)
            &&& b.titles.len() > 0 ==> exists|j: int|
                0 <= j < b.titles.len() && focus_block_text(b, offset) == head + trunc_text(
                    #[trigger] b.titles[j].0,
                    36,
                ) && (forall|k: int| 0 <= k < b.titles.len() ==> b.titles[k].1 <= b.titles[j].1) && (
                forall|k: int| j < k < b.titles.len() ==> b.titles[k].1 < b.titles[j].1)
        }),
{
    let len = b.end_t - b.start_t + SAMPLE_S;
    let head = align_left(mmdd_text(b.start_t, offset), 6) + " "@ + hhmm_text(b.start_t, offset)
        + "~"@ + hhmm_text(b.end_t, offset) + " "@ + align_right(dur_text(len), 8) + " "@
        + align_right(signed_decimal(tdiv(b.active_s * 100, if len >= 1 { len } else { 1 })), 4)
        + "%  "@ + align_left(trunc_text(b.app, 16), 16) + " "@;
    assert(len == block_len(b));
    assert(block_active_pct(b) == tdiv(b.active_s * 100, if len >= 1 { len } else { 1 }));
    assert(focus_block_text(b, offset) == head + trunc_text(block_title_text(b), 36));
    if b.titles.len() > 0 {
        crate::focus::lemma_top_index_longest(b.titles);
        let j = top_index(b.titles);
        assert(forall|k: int| 0 <= k < b.titles.len() ==> #[trigger] b.titles[k].1 <= b.titles[j].1);
        assert(forall|k: int| j < k < b.titles.len() ==> #[trigger] b.titles[k].1 < b.titles[j].1);
        assert(focus_block_text(b, offset) == head + trunc_text(b.titles[j].0, 36));
    }
}

/// One day of `focus`: the day, its focused time and its number of blocks.
pub open spec fn focus_day_text(day: Seq<char>, secs: int, blocks: int) -> Seq<char> {
    "  "@ + day + "  "@ + align_right(dur_text(secs), 8) + "  (구간 "@ + signed_decimal(blocks)
        + "개)"@
}

/// The line of `focus` for one day.
pub fn focus_day_line(day: &str, secs: i64, blocks: i64) -> (s: String)
    ensures
        s@ == focus_day_text(day@, secs as int, blocks as int),
{
    let mut s = String::new();
    push_seq(&mut s, "  ");
    push_seq(&mut s, day);
    push_seq(&mut s, "  ");
    let d = dur(secs);
    push_right(&mut s, d.as_str(), 8);
    push_seq(&mut s, "  (구간 ");
    push_int(&mut s, blocks);
    push_seq(&mut s, "개)");
    assert(s@ =~= focus_day_text(day@, secs as int, blocks as int));
    s
}

/// One app of `focus`: its name, its focused time and its bar.
pub open spec fn focus_app_text(app: Seq<char>, secs: int, bar: Seq<char>) -> Seq<char> {
    "  "@ + align_left(trunc_text(app, 16), 16) + " "@ + align_right(dur_text(secs), 8) + "  "@
        + bar
}

/// The line of `focus` for one app.
pub fn focus_app_line(app: &str, secs: i64, bar: &str) -> (s: String)
    ensures
        s@ == focus_app_text(app@, secs as int, bar@),
{
    let mut s = String::new();
    push_seq(&mut s, "  ");
    let a = trunc(app, 16);
    push_left(&mut s, a.as_str(), 16);
    push_seq(&mut s, " ");
    let d = dur(secs);
    push_right(&mut s, d.as_str(), 8);
    push_seq(&mut s, "  ");
    push_seq(&mut s, bar);
    assert(s@ =~= focus_app_text(app@, secs as int, bar@));
    s
}

// ---------- doctor ----------

/// What `doctor` says of the collector, with `rows` spans recorded.
pub open spec fn collector_text(c: Collector, rows: int) -> Seq<char> {
    match c {
        Collector::Running { age } => "수집기      돌고 있다 ("@ + signed_decimal(age as int)
            + "초 전 기록, 구간 "@ + signed_decimal(rows) + "개)"@,
        Collector::Stopped { age } => "수집기      ✗ 멈춰 있다 — 마지막 기록 "@ + dur_text(
            age as int,
        ) + " 전. brew services restart desklog"@,
        Collector::Empty => "수집기      ✗ 기록이 하나도 없다 — desklog watch 를 띄워라"@,
    }
}

/// The line of `doctor` on the collector.
pub fn collector_line(c: &Collector, rows: i64) -> (s: String)
    ensures
        s@ == collector_text(*c, rows as int),
{
    let mut s = String::new();
    match c {
        Collector::Running { age } => {
            push_seq(&mut s, "수집기      돌고 있다 (");
            push_int(&mut s, *age);
            push_seq(&mut s, "초 전 기록, 구간 ");
            push_int(&mut s, rows);
            push_seq(&mut s, "개)");
        },
        Collector::Stopped { age } => {
            push_seq(&mut s, "수집기      ✗ 멈춰 있다 — 마지막 기록 ");
            let d = dur(*age);
            push_seq(&mut s, d.as_str());
            push_seq(&mut s, " 전. brew services restart desklog");
        },
        Collector::Empty => {
            push_seq(&mut s, "수집기      ✗ 기록이 하나도 없다 — desklog watch 를 띄워라");
        },
    }
    assert(s@ =~= collector_text(*c, rows as int));
    s
}

/// What `doctor` says of the share of the last hour without a window title.
pub open spec fn untitled_text(pct: int) -> Seq<char> {
    "최근 1시간   제목 없는 비율 "@ + signed_decimal(pct) + "%"@
}

/// The line of `doctor` on untitled time, `pct` percent of it.
pub fn untitled_line(pct: i64) -> (s: String)
    ensures
        s@ == untitled_text(pct as int),
{
    let mut s = String::new();
    push_seq(&mut s, "최근 1시간   제목 없는 비율 ");
    push_int(&mut s, pct);
    push_seq(&mut s, "%");
    assert(s@ =~= untitled_text(pct as int));
    s
}

} // verus!
