//! The collector's decisions, sample by sample: a sample extends the open
//! span while nothing that splits spans has changed, and opens a new span
//! otherwise.

use vstd::prelude::*;
use crate::focus::SAMPLE_S;
use crate::text::{trim, trim_text, non_empty};

verus! {

/// Below this idle time (ms) the person counts as typing during a sample.
pub const ACTIVE_IDLE_MS: u64 = 60_000;
/// Idle for this long (ms) breaks a session.
pub const IDLE_BREAK_MS: u64 = 300_000;

/// What splits spans: when any of it changes, a new span opens.
#[derive(PartialEq, Clone, Debug)]
pub struct Key {
    pub app: String,
    pub title: Option<String>,
    /// Spans are cut where the hour changes, so that per-hour totals stay exact.
    pub hour: i64,
    pub session: u64,
    /// Locking or unlocking the screen cuts a span.
    pub locked: bool,
}

pub struct KeyView {
    pub app: Seq<char>,
    pub title: Option<Seq<char>>,
    pub hour: int,
    pub session: nat,
    pub locked: bool,
}

impl View for Key {
    type V = KeyView;

    open spec fn view(&self) -> KeyView {
        KeyView {
            app: self.app@,
            title: match self.title {
                Some(t) => Some(t@),
                None => None,
            },
            hour: self.hour as int,
            session: self.session as nat,
            locked: self.locked,
        }
    }
}

impl Key {
    /// Whether two keys are the same, field by field.
    pub fn same_as(&self, other: &Key) -> (r: bool)
        ensures
            r == (self@ == other@),
    {
        let titles_same = match (&self.title, &other.title) {
            (Some(a), Some(b)) => *a == *b,
            (None, None) => true,
            _ => false,
        };
        let r = self.app == other.app && titles_same && self.hour == other.hour && self.session
            == other.session && self.locked == other.locked;
        if r {
            assert(self@ =~= other@);
        }
        r
    }

    /// A copy of the key.
    pub fn copy(&self) -> (r: Key)
        ensures
            r@ == self@,
    {
        Key {
            app: self.app.clone(),
            title: match &self.title {
                Some(t) => Some(t.clone()),
                None => None,
            },
            hour: self.hour,
            session: self.session,
            locked: self.locked,
        }
    }
}

/// Seconds of input that one sample counts: a full sample when input came
/// within the last minute, else nothing.
pub open spec fn active_of(idle_ms: int) -> int {
    if idle_ms < ACTIVE_IDLE_MS {
        SAMPLE_S as int
    } else {
        0
    }
}

/// The input seconds one sample adds to its span.
pub fn active_seconds(idle_ms: u64) -> (r: i64)
    ensures
        r == active_of(idle_ms as int),
{
    if idle_ms < ACTIVE_IDLE_MS {
        SAMPLE_S
    } else {
        0
    }
}

/// The span being written: its row id, its key, and its input seconds so far.
pub struct OpenSpan {
    pub id: i64,
    pub key: Key,
    pub active_s: i64,
}

pub struct OpenSpanView {
    pub id: int,
    pub key: KeyView,
    pub active_s: int,
}

impl View for OpenSpan {
    type V = OpenSpanView;

    open spec fn view(&self) -> OpenSpanView {
        OpenSpanView { id: self.id as int, key: self.key@, active_s: self.active_s as int }
    }
}

/// What to write for a sample.
pub enum SpanWrite {
    /// Stretch row `id` to this sample, with `active_s` input seconds in all.
    Extend { id: i64, active_s: i64 },
    /// Start a new row; report its id with `opened`.
    Insert,
}

/// The collector's memory of the span being written.
pub struct SpanLog {
    pub open: Option<OpenSpan>,
}

pub open spec fn open_view(o: Option<OpenSpan>) -> Option<OpenSpanView> {
    match o {
        Some(s) => Some(s@),
        None => None,
    }
}

/// The sample continues the open span.
pub open spec fn continues(open: Option<OpenSpanView>, key: KeyView) -> bool {
    open matches Some(o) && o.key == key
}

/// The sample can be added without leaving `i64`.
pub open spec fn sample_fits(open: Option<OpenSpanView>, key: KeyView, active: int) -> bool {
    continues(open, key) ==> i64::MIN <= open.unwrap().active_s + active <= i64::MAX
}

impl SpanLog {
    /// Nothing written yet.
    pub fn new() -> (r: SpanLog)
        ensures
            r.open is None,
    {
        SpanLog { open: None }
    }

    /// Whether `sample(key, active)` can run.
    pub fn can_sample(&self, key: &Key, active: i64) -> (r: bool)
        ensures
            r == sample_fits(open_view(self.open), key@, active as int),
    {
        match &self.open {
            Some(o) => !o.key.same_as(key) || (o.active_s as i128 + active as i128 >= i64::MIN as i128
                && o.active_s as i128 + active as i128 <= i64::MAX as i128),
            None => true,
        }
    }

    /// Decides what a sample with `key` and `active` input seconds writes.
    /// A sample that continues the open span adds its input to it at once.
    pub fn sample(&mut self, key: &Key, active: i64) -> (w: SpanWrite)
        requires
            sample_fits(open_view(old(self).open), key@, active as int),
        ensures
            continues(open_view(old(self).open), key@) ==> {
                let o = open_view(old(self).open).unwrap();
                &&& w == (SpanWrite::Extend { id: o.id as i64, active_s: (o.active_s + active) as i64 })
                &&& open_view(final(self).open) == Some(
                    OpenSpanView { id: o.id, key: o.key, active_s: o.active_s + active },
                )
            },
            open_view(final(self).open) == after_sample(open_view(old(self).open), key@, active as int),
            !continues(open_view(old(self).open), key@) ==> {
                &&& w == SpanWrite::Insert
                &&& open_view(final(self).open) == open_view(old(self).open)
            },
    {
        match &mut self.open {
            Some(o) => {
                if o.key.same_as(key) {
                    o.active_s = o.active_s + active;
                    return SpanWrite::Extend { id: o.id, active_s: o.active_s };
                }
                SpanWrite::Insert
            },
            None => SpanWrite::Insert,
        }
    }

    /// The new row `id` for `key` was written with `active` input seconds.
    pub fn opened(&mut self, id: i64, key: &Key, active: i64)
        ensures
            open_view(final(self).open) == Some(
                OpenSpanView { id: id as int, key: key@, active_s: active as int },
            ),
    {
        self.open = Some(OpenSpan { id, key: key.copy(), active_s: active });
    }
}

/// What the window query gave, made ready for a key: the app name without
/// surrounding whitespace, and the title when it holds more than whitespace.
pub fn window_parts(app_name: &str, title: String) -> (r: (String, Option<String>))
    ensures
        r.0@ == trim_text(app_name@),
        r.1 is None <==> trim_text(title@).len() == 0,
        r.1 matches Some(t) ==> t@ == title@,
{
    (String::from_str(trim(app_name)), non_empty(title))
}

/// A title as the key holds it: `None` where it is only whitespace.
pub open spec fn title_of(title: Seq<char>) -> Option<Seq<char>> {
    if trim_text(title).len() == 0 {
        None
    } else {
        Some(title)
    }
}

pub open spec fn opt_text(o: Option<String>) -> Option<Seq<char>> {
    match o {
        Some(t) => Some(t@),
        None => None,
    }
}

/// Where reading the active window stands after the window query.
pub enum WindowStep {
    /// The window named its app: the observation is complete.
    Known { app: String, title: Option<String> },
    /// The query gave no app name: the frontmost app must be asked for it;
    /// `title` is what the window query gave.
    AskFrontmost { title: Option<String> },
}

/// The first step of reading the active window, from what the window query
/// gave (app name and title; `None` where the query failed). An app name that
/// is empty once trimmed, or a failed query, asks for the frontmost app.
pub fn window_step(window: Option<(String, String)>) -> (r: WindowStep)
    ensures
        window is None ==> (r matches WindowStep::AskFrontmost { title } && title is None),
        window matches Some(w) ==> (trim_text(w.0@).len() == 0 ==> (r matches WindowStep::AskFrontmost {
            title,
        } && opt_text(title) == title_of(w.1@))),
        window matches Some(w) ==> (trim_text(w.0@).len() > 0 ==> (r matches WindowStep::Known {
            app,
            title,
        } && app@ == trim_text(w.0@) && opt_text(title) == title_of(w.1@))),
{
    match window {
        Some((app_name, title)) => {
            let (app, title) = window_parts(app_name.as_str(), title);
            if app.unicode_len() == 0 {
                WindowStep::AskFrontmost { title }
            } else {
                WindowStep::Known { app, title }
            }
        },
        None => WindowStep::AskFrontmost { title: None },
    }
}

/// The observation once the frontmost app was asked for (`front`, `None`
/// where it gave no name): without a name there is nothing to record.
pub fn with_frontmost(title: Option<String>, front: Option<String>) -> (r: Option<
    (String, Option<String>),
>)
    ensures
        r is Some <==> front is Some,
        r matches Some(o) ==> (front matches Some(f) && o.0@ == f@ && opt_text(o.1) == opt_text(
            title,
        )),
{
    match front {
        Some(app) => Some((app, title)),
        None => None,
    }
}

/// The start of a look-back of `days` days from `now`, when it is a time
/// that `i64` holds.
pub fn days_back(now: i64, days: i64) -> (r: Option<i64>)
    ensures
        r is Some <==> (i64::MIN <= days * 86400 <= i64::MAX && i64::MIN <= now - days * 86400
            <= i64::MAX),
        r matches Some(v) ==> v == now - days * 86400,
{
    let span: i128 = days as i128 * 86400;
    if span < i64::MIN as i128 || span > i64::MAX as i128 {
        return None;
    }
    let v: i128 = now as i128 - span;
    if v < i64::MIN as i128 || v > i64::MAX as i128 {
        return None;
    }
    Some(v as i64)
}

/// The open span after a sample with `key` and `active` input seconds.
pub open spec fn after_sample(open: Option<OpenSpanView>, key: KeyView, active: int) -> Option<
    OpenSpanView,
> {
    if continues(open, key) {
        Some(
            OpenSpanView {
                id: open.unwrap().id,
                key: open.unwrap().key,
                active_s: open.unwrap().active_s + active,
            },
        )
    } else {
        open
    }
}

/// The open span after a sequence of samples, all with `key`.
pub open spec fn after_samples(open: Option<OpenSpanView>, key: KeyView, actives: Seq<int>) -> Option<
    OpenSpanView,
>
    decreases actives.len(),
{
    if actives.len() == 0 {
        open
    } else {
        after_sample(after_samples(open, key, actives.drop_last()), key, actives.last())
    }
}

pub open spec fn sum_of(xs: Seq<int>) -> int
    decreases xs.len(),
{
    if xs.len() == 0 {
        0
    } else {
        sum_of(xs.drop_last()) + xs.last()
    }
}

/// While the key stays the same, samples keep writing the span that was
/// opened: same row, and its input seconds are those it opened with plus
/// those of every sample since.
pub proof fn lemma_span_accumulates(id: int, key: KeyView, opened_with: int, actives: Seq<int>)
    ensures
        after_samples(
            Some(OpenSpanView { id, key, active_s: opened_with }),
            key,
            actives,
        ) == Some(OpenSpanView { id, key, active_s: opened_with + sum_of(actives) }),
    decreases actives.len(),
{
    if actives.len() > 0 {
        lemma_span_accumulates(id, key, opened_with, actives.drop_last());
    }
}

/// A sample whose key differs from the open span's leaves that span as it
/// was, and asks for a new row (see `SpanLog::sample`).
pub proof fn lemma_new_key_keeps_span(o: OpenSpanView, key: KeyView, active: int)
    requires
        o.key != key,
    ensures
        after_sample(Some(o), key, active) == Some(o),
{
}

/// One sample as the collector handles it: the write it asks for (`true` for
/// a new row), and the open span afterwards, `id` being the row that an
/// insert gets (`opened` is called after each insert).
pub open spec fn record_sample(open: Option<OpenSpanView>, key: KeyView, active: int, id: int) -> (
    Option<OpenSpanView>,
    bool,
) {
    if continues(open, key) {
        (after_sample(open, key, active), false)
    } else {
        (Some(OpenSpanView { id, key, active_s: active }), true)
    }
}

/// A run of samples from a collector that has written nothing: the open span
/// afterwards, and for each sample whether it inserted a row.
pub open spec fn record_samples(keys: Seq<KeyView>, actives: Seq<int>, ids: Seq<int>) -> (
    Option<OpenSpanView>,
    Seq<bool>,
)
    decreases keys.len(),
{
    if keys.len() == 0 {
        (None, Seq::empty())
    } else {
        let n = keys.len() - 1;
        let before = record_samples(keys.drop_last(), actives, ids);
        let step = record_sample(before.0, keys[n], actives[n], ids[n]);
        (step.0, before.1.push(step.1))
    }
}

/// Where the trailing run of samples with the last sample's key begins.
pub open spec fn key_run_start(keys: Seq<KeyView>) -> int
    decreases keys.len(),
{
    if keys.len() <= 1 {
        0
    } else if keys[keys.len() - 2] != keys.last() {
        keys.len() - 1
    } else {
        key_run_start(keys.drop_last())
    }
}

/// How rows are stored: a sample inserts a new row exactly when it is the
/// first one or its key differs from the key of the sample before; otherwise
/// it extends the row that is open. The open row always has the latest key;
/// it is the row inserted by the first sample of the trailing run of samples
/// with that key, and holds the input seconds of every sample of that run.
pub proof fn lemma_rows_follow_keys(keys: Seq<KeyView>, actives: Seq<int>, ids: Seq<int>)
    ensures
        record_samples(keys, actives, ids).1.len() == keys.len(),
        keys.len() > 0 ==> (record_samples(keys, actives, ids).0 matches Some(o) && o.key
            == keys.last()),
        forall|k: int|
            0 <= k < keys.len() ==> #[trigger] record_samples(keys, actives, ids).1[k] == (k == 0
                || keys[k] != keys[k - 1]),
        keys.len() > 0 ==> 0 <= key_run_start(keys) < keys.len(),
        keys.len() > 0 && actives.len() >= keys.len() ==> (record_samples(keys, actives, ids).0 matches Some(
            o,
        ) && o.id == ids[key_run_start(keys)] && o.active_s == sum_of(
            actives.subrange(key_run_start(keys), keys.len() as int),
        )),
    decreases keys.len(),
{
    if keys.len() > 0 {
        let d = keys.drop_last();
        lemma_rows_follow_keys(d, actives, ids);
        let r = record_samples(keys, actives, ids);
        let b = record_samples(d, actives, ids);
        let n = keys.len() - 1;
        assert forall|k: int| 0 <= k < keys.len() implies #[trigger] r.1[k] == (k == 0 || keys[k]
            != keys[k - 1]) by {
            if k < keys.len() - 1 {
                assert(r.1[k] == b.1[k]);
                assert(keys[k] == d[k]);
                if k > 0 {
                    assert(keys[k - 1] == d[k - 1]);
                }
            } else if k > 0 {
                assert(d.last() == keys[k - 1]);
            }
        }
        if actives.len() >= keys.len() {
            if n > 0 && keys[n - 1] == keys[n] {
                // The sample extends the open row of the run.
                let j = key_run_start(d);
                assert(d.last() == keys[n - 1]);
                assert(actives.subrange(j, n + 1).drop_last() =~= actives.subrange(j, n));
                let o = b.0.unwrap();
                assert(r.0 == Some(
                    OpenSpanView { id: o.id, key: o.key, active_s: o.active_s + actives[n] },
                ));
            } else {
                // The sample opens a new row.
                assert(actives.subrange(n, n + 1).drop_last() =~= Seq::<int>::empty());
                assert(sum_of(Seq::<int>::empty()) == 0);
                assert(r.0 == Some(OpenSpanView { id: ids[n], key: keys[n], active_s: actives[n] }));
            }
        }
    }
}

} // verus!
