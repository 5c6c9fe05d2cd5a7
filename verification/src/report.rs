//! What the reading commands print about recorded spans: the latest state as
//! JSON, CSV rows for export, the raw log with its gaps, the per-hour table,
//! and the verdicts of the health check.

use vstd::prelude::*;
use crate::text::{csv_decode, json_decode, number_text, lemma_csv_round_trip, lemma_json_round_trip, lemma_signed_decimal_number, tdiv, push_char, push_int, push_seq, push_json, push_right, push_left, center, csv, dur, trunc, signed_decimal, json_text, csv_text, dur_text, trunc_text, align_right, align_left, align_center};
use crate::clock::{hhmmss, hhmmss_text};
use crate::focus::{SAMPLE_S, fits_i64};
use crate::clock::shift_fits;

verus! {

/// A stored span with everything the commands print about it.
pub struct Record {
    pub start_t: i64,
    pub end_t: i64,
    pub app: String,
    pub title: Option<String>,
    /// Local hour of the span.
    pub hour: i64,
    /// Seconds with input inside the span.
    pub active_s: i64,
    /// Idle time at the end of the span, as printed with one decimal (`{:.1}`).
    pub idle: String,
    pub session_s: i64,
    pub app_s: i64,
    pub locked: bool,
}

pub struct RecordView {
    pub start_t: int,
    pub end_t: int,
    pub app: Seq<char>,
    pub title: Option<Seq<char>>,
    pub hour: int,
    pub active_s: int,
    pub idle: Seq<char>,
    pub session_s: int,
    pub app_s: int,
    pub locked: bool,
}

impl View for Record {
    type V = RecordView;

    open spec fn view(&self) -> RecordView {
        RecordView {
            start_t: self.start_t as int,
            end_t: self.end_t as int,
            app: self.app@,
            title: match self.title {
                Some(t) => Some(t@),
                None => None,
            },
            hour: self.hour as int,
            active_s: self.active_s as int,
            idle: self.idle@,
            session_s: self.session_s as int,
            app_s: self.app_s as int,
            locked: self.locked,
        }
    }
}

/// How long a span lasted: a span of one sample counts a full sample.
pub open spec fn span_len(start_t: int, end_t: int) -> int {
    end_t - start_t + SAMPLE_S
}

/// The span's length can be computed in `i64`.
pub open spec fn span_fits(start_t: int, end_t: int) -> bool {
    fits_i64(end_t - start_t) && fits_i64(span_len(start_t, end_t))
}

/// Whether a span's length can be computed in `i64`.
pub fn span_fits_check(start_t: i64, end_t: i64) -> (r: bool)
    ensures
        r == span_fits(start_t as int, end_t as int),
{
    let d: i128 = end_t as i128 - start_t as i128;
    d >= i64::MIN as i128 && d <= i64::MAX as i128 && d + SAMPLE_S as i128 <= i64::MAX as i128
}

/// A span's length in seconds.
pub fn span_seconds(start_t: i64, end_t: i64) -> (r: i64)
    requires
        span_fits(start_t as int, end_t as int),
    ensures
        r == span_len(start_t as int, end_t as int),
{
    end_t - start_t + SAMPLE_S
}

/// A JSON string, or `null` for no string.
pub open spec fn json_opt(t: Option<Seq<char>>) -> Seq<char> {
    match t {
        Some(t) => json_text(t),
        None => "null"@,
    }
}

/// The one-line JSON that `now` prints for the latest span, at time `now`.
pub open spec fn now_json_text(r: RecordView, now: int) -> Seq<char> {
    "{\"t\":"@ + signed_decimal(r.end_t) + ",\"age_s\":"@ + signed_decimal(now - r.end_t)
        + ",\"app\":"@ + json_text(r.app) + ",\"title\":"@ + json_opt(r.title) + ",\"idle_s\":"@
        + r.idle + ",\"hour\":"@ + signed_decimal(r.hour) + ",\"session_s\":"@
        + signed_decimal(r.session_s) + ",\"app_s\":"@ + signed_decimal(r.app_s) + ",\"span_s\":"@
        + signed_decimal(span_len(r.start_t, r.end_t)) + ",\"span_active_s\":"@ + signed_decimal(
        r.active_s,
    ) + ",\"locked\":"@ + (if r.locked {
        "true"@
    } else {
        "false"@
    }) + "}"@
}

/// The latest span as one line of JSON, as `now` prints it at time `now`.
pub fn now_json(r: &Record, now: i64) -> (s: String)
    requires
        span_fits(r@.start_t, r@.end_t),
        fits_i64(now - r@.end_t),
    ensures
        s@ == now_json_text(r@, now as int),
{
    let mut s = String::new();
    push_seq(&mut s, "{\"t\":");
    push_int(&mut s, r.end_t);
    push_seq(&mut s, ",\"age_s\":");
    push_int(&mut s, now - r.end_t);
    push_seq(&mut s, ",\"app\":");
    push_json(&mut s, r.app.as_str());
    push_seq(&mut s, ",\"title\":");
    match &r.title {
        Some(t) => push_json(&mut s, t.as_str()),
        None => push_seq(&mut s, "null"),
    }
    push_seq(&mut s, ",\"idle_s\":");
    push_seq(&mut s, r.idle.as_str());
    push_seq(&mut s, ",\"hour\":");
    push_int(&mut s, r.hour);
    push_seq(&mut s, ",\"session_s\":");
    push_int(&mut s, r.session_s);
    push_seq(&mut s, ",\"app_s\":");
    push_int(&mut s, r.app_s);
    push_seq(&mut s, ",\"span_s\":");
    push_int(&mut s, span_seconds(r.start_t, r.end_t));
    push_seq(&mut s, ",\"span_active_s\":");
    push_int(&mut s, r.active_s);
    push_seq(&mut s, ",\"locked\":");
    if r.locked {
        push_seq(&mut s, "true");
    } else {
        push_seq(&mut s, "false");
    }
    push_seq(&mut s, "}");
    assert(s@ =~= now_json_text(r@, now as int));
    s
}

/// One CSV row of `export`.
pub open spec fn export_text(r: RecordView) -> Seq<char> {
    signed_decimal(r.start_t) + seq![','] + signed_decimal(r.end_t) + seq![','] + signed_decimal(
        span_len(r.start_t, r.end_t),
    ) + seq![','] + csv_text(r.app) + seq![','] + csv_text(
        match r.title {
            Some(t) => t,
            None => Seq::empty(),
        },
    ) + seq![','] + signed_decimal(r.hour) + seq![','] + signed_decimal(r.active_s) + seq![',']
        + r.idle + seq![','] + signed_decimal(r.session_s) + seq![',']
        + signed_decimal(r.app_s) + seq![','] + (if r.locked {
        seq!['1']
    } else {
        seq!['0']
    })
}

/// One CSV row of `export` for a span.
pub fn export_line(r: &Record) -> (s: String)
    requires
        span_fits(r@.start_t, r@.end_t),
    ensures
        s@ == export_text(r@),
{
    let mut s = String::new();
    push_int(&mut s, r.start_t);
    push_char(&mut s, ',');
    push_int(&mut s, r.end_t);
    push_char(&mut s, ',');
    push_int(&mut s, span_seconds(r.start_t, r.end_t));
    push_char(&mut s, ',');
    let app = csv(r.app.as_str());
    push_seq(&mut s, app.as_str());
    push_char(&mut s, ',');
    let title = match &r.title {
        Some(t) => csv(t.as_str()),
        None => csv(""),
    };
    proof {
        if r.title is None {
            reveal_strlit("");
            assert(""@ =~= Seq::<char>::empty());
        }
    }
    push_seq(&mut s, title.as_str());
    push_char(&mut s, ',');
    push_int(&mut s, r.hour);
    push_char(&mut s, ',');
    push_int(&mut s, r.active_s);
    push_char(&mut s, ',');
    push_seq(&mut s, r.idle.as_str());
    push_char(&mut s, ',');
    push_int(&mut s, r.session_s);
    push_char(&mut s, ',');
    push_int(&mut s, r.app_s);
    push_char(&mut s, ',');
    push_char(&mut s, if r.locked { '1' } else { '0' });
    assert(s@ =~= export_text(r@));
    s
}

// ---------- reading the lines back ----------

/// `line` is the JSON object of `now` for `r` at time `now`, with the app
/// and title fields given as they stand in the line.
pub open spec fn now_line_fields(
    line: Seq<char>,
    r: RecordView,
    now: int,
    app: Seq<char>,
    title: Seq<char>,
) -> bool {
    line == "{\"t\":"@ + signed_decimal(r.end_t) + ",\"age_s\":"@ + signed_decimal(now - r.end_t)
        + ",\"app\":"@ + app + ",\"title\":"@ + title + ",\"idle_s\":"@ + r.idle + ",\"hour\":"@
        + signed_decimal(r.hour) + ",\"session_s\":"@ + signed_decimal(r.session_s) + ",\"app_s\":"@
        + signed_decimal(r.app_s) + ",\"span_s\":"@ + signed_decimal(r.end_t - r.start_t + SAMPLE_S)
        + ",\"span_active_s\":"@ + signed_decimal(r.active_s) + ",\"locked\":"@ + (if r.locked {
        "true"@
    } else {
        "false"@
    }) + "}"@
}

/// The JSON of `now` reads back: `t` is the end of the span, `age_s` the
/// time since then, `span_s` its length counting its last sample, the other
/// numbers and the lock flag are the span's own, the `app` field is a JSON
/// string that decodes to the app, and the `title` field is `null` for no
/// title and otherwise a JSON string that decodes to exactly the title.
pub proof fn lemma_now_json_reads_back(r: RecordView, now: int)
    ensures
        exists|app: Seq<char>, title: Seq<char>|
            #[trigger] now_line_fields(now_json_text(r, now), r, now, app, title) && json_decode(app)
                == Some(r.app) && (r.title is None ==> title == "null"@) && (r.title matches Some(t)
                ==> json_decode(title) == Some(t)),
{
    lemma_json_round_trip(r.app);
    if r.title is Some {
        lemma_json_round_trip(r.title.unwrap());
    }
    assert(now_line_fields(now_json_text(r, now), r, now, json_text(r.app), json_opt(r.title)));
}

/// `line` is an `export` row for `r`, with the app and title fields given as
/// they stand in the row.
pub open spec fn export_row_fields(line: Seq<char>, r: RecordView, app: Seq<char>, title: Seq<char>) -> bool {
    line == signed_decimal(r.start_t) + seq![','] + signed_decimal(r.end_t) + seq![',']
        + signed_decimal(r.end_t - r.start_t + SAMPLE_S) + seq![','] + app + seq![','] + title
        + seq![','] + signed_decimal(r.hour) + seq![','] + signed_decimal(r.active_s) + seq![',']
        + r.idle + seq![','] + signed_decimal(r.session_s) + seq![','] + signed_decimal(r.app_s)
        + seq![','] + (if r.locked {
        seq!['1']
    } else {
        seq!['0']
    })
}

/// Every field of an `export` row reads back as its value: the numbers are
/// written in decimal (no quote or comma inside), the length counts the last
/// sample, the app field is a quoted CSV field that unquotes to the app, and
/// the title field one that unquotes to the title, or to empty text for no
/// title.
pub proof fn lemma_export_reads_back(r: RecordView)
    ensures
        exists|app: Seq<char>, title: Seq<char>|
            #[trigger] export_row_fields(export_text(r), r, app, title) && csv_decode(app) == Some(
                r.app,
            ) && csv_decode(title) == Some(
                match r.title {
                    Some(t) => t,
                    None => Seq::<char>::empty(),
                },
            ),
        number_text(signed_decimal(r.start_t)),
        number_text(signed_decimal(r.end_t)),
        number_text(signed_decimal(r.end_t - r.start_t + SAMPLE_S)),
        number_text(signed_decimal(r.hour)),
        number_text(signed_decimal(r.active_s)),
        number_text(signed_decimal(r.session_s)),
        number_text(signed_decimal(r.app_s)),
{
    let t = match r.title {
        Some(t) => t,
        None => Seq::<char>::empty(),
    };
    lemma_csv_round_trip(r.app);
    lemma_csv_round_trip(t);
    lemma_signed_decimal_number(r.start_t);
    lemma_signed_decimal_number(r.end_t);
    lemma_signed_decimal_number(r.end_t - r.start_t + SAMPLE_S);
    lemma_signed_decimal_number(r.hour);
    lemma_signed_decimal_number(r.active_s);
    lemma_signed_decimal_number(r.session_s);
    lemma_signed_decimal_number(r.app_s);
    assert(export_row_fields(export_text(r), r, csv_text(r.app), csv_text(t)));
}

// ---------- log ----------

/// Records farther apart than this (seconds) mean the collector was not running.
pub const LOG_GAP_S: i64 = 15;

/// The title column of `log`: a lock marker, or the (cut) title.
pub open spec fn log_title_text(r: RecordView) -> Seq<char> {
    if r.locked {
        "[화면 잠김]"@
    } else {
        trunc_text(
            match r.title {
                Some(t) => t,
                None => "(제목 없음)"@,
            },
            38,
        )
    }
}

/// One line of `log`: clock times, length, input time, app and title.
pub open spec fn log_line_text(r: RecordView, offset: int) -> Seq<char> {
    hhmmss_text(r.start_t, offset) + seq!['~'] + hhmmss_text(r.end_t, offset) + seq![' ']
        + align_right(dur_text(span_len(r.start_t, r.end_t)), 8) + seq![' '] + align_right(
        dur_text(r.active_s),
        8,
    ) + seq![' ', ' '] + align_left(trunc_text(r.app, 16), 16) + seq![' '] + log_title_text(r)
}

/// The line that marks `gap` seconds without records.
pub open spec fn gap_line_text(gap: int) -> Seq<char> {
    align_center(" 기록 끊김 "@ + dur_text(gap) + seq![' '], 78, '-')
}

/// The lines of `log` for spans in time order: each span, preceded by a gap
/// line where it starts more than `LOG_GAP_S` after the one before ended.
pub open spec fn log_text(rows: Seq<RecordView>, offset: int) -> Seq<Seq<char>>
    decreases rows.len(),
{
    if rows.len() == 0 {
        Seq::empty()
    } else {
        let r = rows.last();
        let gap = if rows.len() >= 2 {
            r.start_t - rows[rows.len() - 2].end_t
        } else {
            0
        };
        let gap_lines = if rows.len() >= 2 && gap > LOG_GAP_S {
            seq![gap_line_text(gap)]
        } else {
            Seq::empty()
        };
        log_text(rows.drop_last(), offset) + gap_lines + seq![log_line_text(r, offset)]
    }
}

/// A span's `log` line can be computed in `i64`: its length and both local clock times.
pub open spec fn log_line_fits(r: RecordView, offset: int) -> bool {
    &&& span_fits(r.start_t, r.end_t)
    &&& fits_i64(r.start_t + offset)
    &&& fits_i64(r.end_t + offset)
}

/// The `log` lines of spans in time order can be computed in `i64`: each
/// line, and each gap between a span and the one before.
pub open spec fn log_fits(rows: Seq<RecordView>, offset: int) -> bool {
    &&& forall|i: int| 0 <= i < rows.len() ==> log_line_fits(#[trigger] rows[i], offset)
    &&& forall|i: int| 0 < i < rows.len() ==> fits_i64(#[trigger] rows[i].start_t - rows[i - 1].end_t)
}

/// Whether `log_lines` can take these spans.
pub fn log_fits_check(rows: &Vec<Record>, offset: i64) -> (r: bool)
    ensures
        r == log_fits(rows@.map_values(|x: Record| x@), offset as int),
{
    let ghost rv = rows@.map_values(|x: Record| x@);
    let mut i: usize = 0;
    while i < rows.len()
        invariant
            i <= rows.len(),
            rv == rows@.map_values(|x: Record| x@),
            forall|k: int| 0 <= k < i ==> log_line_fits(#[trigger] rv[k], offset as int),
            forall|k: int| 0 < k < i ==> fits_i64(#[trigger] rv[k].start_t - rv[k - 1].end_t),
        decreases rows.len() - i,
    {
        let r = &rows[i];
        assert(rv[i as int] == r@);
        let a: i128 = r.start_t as i128 + offset as i128;
        let b: i128 = r.end_t as i128 + offset as i128;
        if !span_fits_check(r.start_t, r.end_t) || a < i64::MIN as i128 || a > i64::MAX as i128
            || b < i64::MIN as i128 || b > i64::MAX as i128 {
            assert(!log_line_fits(rv[i as int], offset as int));
            return false;
        }
        if i > 0 {
            assert(rv[i - 1] == rows@[i - 1]@);
            let g: i128 = r.start_t as i128 - rows[i - 1].end_t as i128;
            if g < i64::MIN as i128 || g > i64::MAX as i128 {
                assert(!fits_i64(rv[i as int].start_t - rv[i - 1].end_t));
                return false;
            }
        }
        i = i + 1;
    }
    true
}

/// One line of `log` for a span.
pub fn log_line(r: &Record, offset: i64) -> (s: String)
    requires
        log_line_fits(r@, offset as int),
    ensures
        s@ == log_line_text(r@, offset as int),
{
    let mut s = String::new();
    let a = hhmmss(r.start_t, offset);
    push_seq(&mut s, a.as_str());
    push_char(&mut s, '~');
    let b = hhmmss(r.end_t, offset);
    push_seq(&mut s, b.as_str());
    push_char(&mut s, ' ');
    let len = dur(span_seconds(r.start_t, r.end_t));
    push_right(&mut s, len.as_str(), 8);
    push_char(&mut s, ' ');
    let act = dur(r.active_s);
    push_right(&mut s, act.as_str(), 8);
    push_char(&mut s, ' ');
    push_char(&mut s, ' ');
    let app = trunc(r.app.as_str(), 16);
    push_left(&mut s, app.as_str(), 16);
    push_char(&mut s, ' ');
    if r.locked {
        push_seq(&mut s, "[화면 잠김]");
    } else {
        let t = match &r.title {
            Some(t) => trunc(t.as_str(), 38),
            None => trunc("(제목 없음)", 38),
        };
        push_seq(&mut s, t.as_str());
    }
    assert(s@ =~= log_line_text(r@, offset as int));
    s
}

/// The line that marks a gap of `gap` seconds in the records.
pub fn gap_line(gap: i64) -> (s: String)
    ensures
        s@ == gap_line_text(gap as int),
{
    let mut label = String::new();
    push_seq(&mut label, " 기록 끊김 ");
    let d = dur(gap);
    push_seq(&mut label, d.as_str());
    push_char(&mut label, ' ');
    center(label.as_str(), 78, '-')
}

pub open spec fn lines_view(v: Seq<String>) -> Seq<Seq<char>> {
    v.map_values(|s: String| s@)
}

/// The lines of `log` for spans given in time order.
pub fn log_lines(rows: &Vec<Record>, offset: i64) -> (lines: Vec<String>)
    requires
        log_fits(rows@.map_values(|r: Record| r@), offset as int),
    ensures
        lines_view(lines@) == log_text(rows@.map_values(|r: Record| r@), offset as int),
{
    let ghost rv = rows@.map_values(|r: Record| r@);
    let mut lines: Vec<String> = Vec::new();
    let mut i: usize = 0;
    assert(rv.take(0) =~= Seq::<RecordView>::empty());
    assert(lines_view(lines@) =~= Seq::<Seq<char>>::empty());
    while i < rows.len()
        invariant
            i <= rows.len(),
            rv == rows@.map_values(|r: Record| r@),
            log_fits(rv, offset as int),
            lines_view(lines@) == log_text(rv.take(i as int), offset as int),
        decreases rows.len() - i,
    {
        let ghost before = lines@;
        let ghost pre = rv.take(i + 1);
        assert(pre.drop_last() =~= rv.take(i as int));
        assert(pre.last() == rows@[i as int]@);
        assert(log_line_fits(rv[i as int], offset as int));
        if i > 0 {
            assert(pre[i - 1] == rows@[i - 1]@);
            assert(fits_i64(rv[i as int].start_t - rv[i - 1].end_t));
            let gap = rows[i].start_t - rows[i - 1].end_t;
            if gap > LOG_GAP_S {
                lines.push(gap_line(gap));
            }
        }
        lines.push(log_line(&rows[i], offset));
        assert(lines_view(lines@) =~= log_text(pre, offset as int));
        i = i + 1;
    }
    assert(rv.take(rows.len() as int) =~= rv);
    lines
}

// ---------- top ----------

/// Time per hour of the day: entry `h` holds the time of the last pair for
/// hour `h`; pairs for hours outside 0..24 are ignored.
pub open spec fn hour_table(pairs: Seq<(i64, i64)>) -> Seq<int>
    decreases pairs.len(),
{
    if pairs.len() == 0 {
        Seq::new(24, |i: int| 0int)
    } else {
        let t = hour_table(pairs.drop_last());
        let (h, l) = pairs.last();
        if 0 <= h < 24 {
            t.update(h as int, l as int)
        } else {
            t
        }
    }
}

proof fn lemma_hour_table_len(pairs: Seq<(i64, i64)>)
    ensures
        hour_table(pairs).len() == 24,
    decreases pairs.len(),
{
    if pairs.len() > 0 {
        lemma_hour_table_len(pairs.drop_last());
    }
}

/// Spreads per-hour totals over the 24 hours of the day.
pub fn hour_totals(pairs: &Vec<(i64, i64)>) -> (hours: Vec<i64>)
    ensures
        hours@.len() == 24,
        forall|h: int| 0 <= h < 24 ==> hours@[h] as int == #[trigger] hour_table(pairs@)[h],
{
    let mut hours: Vec<i64> = Vec::new();
    let mut k: usize = 0;
    while k < 24
        invariant
            k <= 24,
            hours@.len() == k,
            forall|h: int| 0 <= h < k ==> hours@[h] == 0,
        decreases 24 - k,
    {
        hours.push(0);
        k = k + 1;
    }
    let mut i: usize = 0;
    assert(pairs@.take(0) =~= Seq::<(i64, i64)>::empty());
    while i < pairs.len()
        invariant
            i <= pairs.len(),
            hours@.len() == 24,
            forall|h: int| 0 <= h < 24 ==> hours@[h] as int == #[trigger] hour_table(
                pairs@.take(i as int),
            )[h],
        decreases pairs.len() - i,
    {
        proof {
            assert(pairs@.take(i + 1).drop_last() =~= pairs@.take(i as int));
            lemma_hour_table_len(pairs@.take(i as int));
        }
        let (h, l) = pairs[i];
        if 0 <= h && h < 24 {
            hours.set(h as usize, l);
        }
        i = i + 1;
    }
    assert(pairs@.take(pairs.len() as int) =~= pairs@);
    hours
}

/// The largest entry, but at least 1 (the scale of a bar chart).
pub open spec fn peak_of(v: Seq<i64>) -> int
    decreases v.len(),
{
    if v.len() == 0 {
        1
    } else {
        let p = peak_of(v.drop_last());
        if v.last() > p {
            v.last() as int
        } else {
            p
        }
    }
}

/// The scale of a bar chart: the largest value, and at least 1.
pub fn peak(v: &Vec<i64>) -> (r: i64)
    ensures
        r == peak_of(v@),
        r >= 1,
        forall|i: int| 0 <= i < v@.len() ==> v@[i] <= r,
{
    let mut best: i64 = 1;
    let mut i: usize = 0;
    assert(v@.take(0) =~= Seq::<i64>::empty());
    while i < v.len()
        invariant
            i <= v.len(),
            best == peak_of(v@.take(i as int)),
            best >= 1,
            forall|k: int| 0 <= k < i ==> v@[k] <= best,
        decreases v.len() - i,
    {
        assert(v@.take(i + 1).drop_last() =~= v@.take(i as int));
        if v[i] > best {
            best = v[i];
        }
        i = i + 1;
    }
    assert(v@.take(v.len() as int) =~= v@);
    best
}

// ---------- doctor and label ----------

/// How the collector is doing, judged by the latest record.
pub enum Collector {
    /// A record from `age` seconds ago: it is running.
    Running { age: i64 },
    /// The latest record is `age` seconds old: it has stopped.
    Stopped { age: i64 },
    /// Nothing was ever recorded.
    Empty,
}

/// Judges the collector at time `now` from the time of its latest record.
pub fn collector_status(now: i64, last: Option<i64>) -> (r: Collector)
    requires
        last matches Some(t) ==> fits_i64(now - t),
    ensures
        last is None ==> r is Empty,
        last matches Some(t) ==> (now - t <= LOG_GAP_S ==> r == (Collector::Running {
            age: (now - t) as i64,
        })),
        last matches Some(t) ==> (now - t > LOG_GAP_S ==> r == (Collector::Stopped {
            age: (now - t) as i64,
        })),
{
    match last {
        Some(t) => {
            let age = now - t;
            if age <= LOG_GAP_S {
                Collector::Running { age }
            } else {
                Collector::Stopped { age }
            }
        },
        None => Collector::Empty,
    }
}

/// The share (percent) of recent unlocked time without a window title, when
/// there was any such time.
pub fn untitled_pct(all: i64, none: i64) -> (r: Option<i64>)
    requires
        fits_i64(none * 100),
    ensures
        all > 0 ==> (r matches Some(p) && p as int == tdiv(none as int * 100, all as int)),
        all <= 0 ==> r is None,
{
    if all > 0 {
        Some(none * 100 / all)
    } else {
        None
    }
}

/// How far back (seconds) the health check looks for window titles.
pub const TITLE_WINDOW_S: i64 = 86400;

/// The collector records no titles although this process may read them: it
/// runs under another permission context. Judged by whether the recent
/// unlocked spans (`spans` of them, `titled` with a title) hold any title.
pub fn titles_missing(spans: i64, titled: i64, capture_allowed: bool) -> (r: bool)
    ensures
        r == (spans > 0 && titled == 0 && capture_allowed),
{
    spans > 0 && titled == 0 && capture_allowed
}

/// The label that `label yes|no` records: 1 for yes, 0 for no.
pub fn label_value(arg: Option<&str>) -> (r: Option<i64>)
    ensures
        r == (match arg {
            Some(a) => if a@ == "yes"@ {
                Some(1i64)
            } else if a@ == "no"@ {
                Some(0i64)
            } else {
                None
            },
            None => None,
        }),
{
    match arg {
        Some(a) => {
            let given = String::from_str(a);
            if given == String::from_str("yes") {
                Some(1)
            } else if given == String::from_str("no") {
                Some(0)
            } else {
                None
            }
        },
        None => None,
    }
}

} // verus!
