//! Focus: recorded spans joined, app by app, into blocks of work, and the
//! test of whether a block was focused work.
//!
//! Focus is not "the same window stayed in front for a long time": the person
//! has to be doing something there. So a block counts when it is long, when
//! input came in for most of it, and when the screen was not locked.

use vstd::prelude::*;
use crate::text::tdiv;

verus! {

/// Seconds between two samples of the collector; a span of one sample lasts this long.
pub const SAMPLE_S: i64 = 5;
/// A block shorter than this (seconds) is no focus.
pub const FOCUS_MIN_S: i64 = 900;
/// A block with input for less than this share (percent) of its length was only watched.
pub const FOCUS_MIN_ACTIVE_PCT: i64 = 50;
/// A visit to another app no longer than this (seconds) does not break a block.
pub const FOCUS_GAP_TOLERANCE_S: i64 = 60;

/// One recorded span, as read back from the store.
#[derive(Clone, Debug)]
pub struct Row {
    pub start_t: i64,
    pub end_t: i64,
    pub app: String,
    pub title: Option<String>,
    pub active_s: i64,
    pub session_s: i64,
    pub locked: bool,
}

/// A span with its strings taken by their characters.
pub struct RowView {
    pub start_t: int,
    pub end_t: int,
    pub app: Seq<char>,
    pub title: Option<Seq<char>>,
    pub active_s: int,
    pub session_s: int,
    pub locked: bool,
}

impl View for Row {
    type V = RowView;

    open spec fn view(&self) -> RowView {
        RowView {
            start_t: self.start_t as int,
            end_t: self.end_t as int,
            app: self.app@,
            title: match self.title {
                Some(t) => Some(t@),
                None => None,
            },
            active_s: self.active_s as int,
            session_s: self.session_s as int,
            locked: self.locked,
        }
    }
}

/// Spans of one app joined together.
#[derive(Debug, PartialEq)]
pub struct Block {
    pub start_t: i64,
    pub end_t: i64,
    pub app: String,
    pub active_s: i64,
    /// Time spent under each window title; the longest names the block.
    pub titles: Vec<(String, i64)>,
}

/// A block with its strings taken by their characters.
pub struct BlockView {
    pub start_t: int,
    pub end_t: int,
    pub app: Seq<char>,
    pub active_s: int,
    pub titles: Seq<(Seq<char>, int)>,
}

pub open spec fn titles_view(v: Seq<(String, i64)>) -> Seq<(Seq<char>, int)> {
    v.map_values(|p: (String, i64)| (p.0@, p.1 as int))
}

impl View for Block {
    type V = BlockView;

    open spec fn view(&self) -> BlockView {
        BlockView {
            start_t: self.start_t as int,
            end_t: self.end_t as int,
            app: self.app@,
            active_s: self.active_s as int,
            titles: titles_view(self.titles@),
        }
    }
}

fn clone_titles(v: &Vec<(String, i64)>) -> (r: Vec<(String, i64)>)
    ensures
        titles_view(r@) == titles_view(v@),
{
    let mut r: Vec<(String, i64)> = Vec::new();
    let mut i: usize = 0;
    while i < v.len()
        invariant
            i <= v.len(),
            r@.len() == i,
            titles_view(r@) == titles_view(v@.take(i as int)),
        decreases v.len() - i,
    {
        let ghost before = r@;
        let name = v[i].0.clone();
        r.push((name, v[i].1));
        assert(v@.take(i + 1) =~= v@.take(i as int).push(v@[i as int]));
        assert(r@ =~= before.push((name, v@[i as int].1)));
        assert forall|k: int| 0 <= k < i + 1 implies #[trigger] titles_view(r@)[k] == titles_view(
            v@.take(i + 1),
        )[k] by {
            if k < i {
                assert(titles_view(before)[k] == titles_view(v@.take(i as int))[k]);
                assert(r@[k] == before[k]);
            } else {
                assert(r@[k] == (name, v@[i as int].1));
                assert(name == v@[i as int].0);
                assert(v@.take(i + 1)[k] == v@[i as int]);
            }
        }
        assert(titles_view(r@) =~= titles_view(v@.take(i + 1)));
        i = i + 1;
    }
    assert(v@.take(v.len() as int) =~= v@);
    r
}

impl Clone for Block {
    fn clone(&self) -> (r: Self)
        ensures
            r@ == self@,
    {
        Block {
            start_t: self.start_t,
            end_t: self.end_t,
            app: self.app.clone(),
            active_s: self.active_s,
            titles: clone_titles(&self.titles),
        }
    }
}

pub open spec fn fits_i64(x: int) -> bool {
    i64::MIN <= x <= i64::MAX
}

/// How long a block lasted: its last span counts a full sample.
pub open spec fn block_len(b: BlockView) -> int {
    b.end_t - b.start_t + SAMPLE_S
}

/// The length of a block can be computed in `i64`.
pub open spec fn len_fits(b: BlockView) -> bool {
    fits_i64(b.end_t - b.start_t) && fits_i64(block_len(b))
}

/// The share (percent, rounded toward zero) of a block's length with input.
pub open spec fn block_active_pct(b: BlockView) -> int {
    tdiv(b.active_s * 100, if block_len(b) >= 1 { block_len(b) } else { 1 })
}

/// A long block with input for most of it.
pub open spec fn focused(b: BlockView) -> bool {
    block_len(b) >= FOCUS_MIN_S && block_active_pct(b) >= FOCUS_MIN_ACTIVE_PCT
}

/// The index of the title with the most time; among equals the last one.
pub open spec fn top_index(ts: Seq<(Seq<char>, int)>) -> int
    decreases ts.len(),
{
    if ts.len() <= 1 {
        0
    } else {
        let b = top_index(ts.drop_last());
        if ts.last().1 >= ts[b].1 {
            ts.len() - 1
        } else {
            b
        }
    }
}

proof fn lemma_top_index_bounds(ts: Seq<(Seq<char>, int)>)
    requires
        ts.len() > 0,
    ensures
        0 <= top_index(ts) < ts.len(),
    decreases ts.len(),
{
    if ts.len() > 1 {
        lemma_top_index_bounds(ts.drop_last());
    }
}

impl Block {
    /// The block's length in seconds.
    pub fn len_s(&self) -> (r: i64)
        requires
            len_fits(self@),
        ensures
            r == block_len(self@),
    {
        self.end_t - self.start_t + SAMPLE_S
    }

    /// The share of the block's length with input, in percent.
    pub fn active_pct(&self) -> (r: i64)
        requires
            len_fits(self@),
            fits_i64(self@.active_s * 100),
        ensures
            r == block_active_pct(self@),
    {
        let len = self.len_s();
        let d: i64 = if len >= 1 { len } else { 1 };
        self.active_s * 100 / d
    }

    /// The title seen longest in the block (the last one among equals).
    pub fn top_title(&self) -> (r: Option<&str>)
        ensures
            self.titles@.len() == 0 ==> r is None,
            self.titles@.len() > 0 ==> (r matches Some(s) && s@ == self@.titles[top_index(
                self@.titles,
            )].0),
    {
        if self.titles.len() == 0 {
            return None;
        }
        let ghost ts = self@.titles;
        let mut best: usize = 0;
        let mut i: usize = 1;
        while i < self.titles.len()
            invariant
                1 <= i <= self.titles.len(),
                ts == self@.titles,
                best == top_index(ts.take(i as int)),
                best < i,
            decreases self.titles.len() - i,
        {
            proof {
                lemma_top_index_bounds(ts.take(i as int));
                assert(ts.take(i + 1).drop_last() =~= ts.take(i as int));
                assert(ts[i as int].1 == self.titles@[i as int].1);
                assert(ts[best as int].1 == self.titles@[best as int].1);
            }
            if self.titles[i].1 >= self.titles[best].1 {
                best = i;
            }
            i = i + 1;
        }
        assert(ts.take(self.titles.len() as int) =~= ts);
        assert(ts[best as int].0 == self.titles@[best as int].0@);
        Some(self.titles[best].0.as_str())
    }
}

/// A long block with input for most of it: focused work. The test is exact
/// for every block: it is computed without leaving `i128`.
pub fn is_focus(b: &Block) -> (r: bool)
    ensures
        r == focused(b@),
{
    let len: i128 = b.end_t as i128 - b.start_t as i128 + SAMPLE_S as i128;
    let d: i128 = if len >= 1 { len } else { 1 };
    let pct: i128 = b.active_s as i128 * 100 / d;
    len >= FOCUS_MIN_S as i128 && pct >= FOCUS_MIN_ACTIVE_PCT as i128
}

// ---------- joining spans into blocks ----------

/// A run of spans: the block and whether the screen was locked throughout.
pub type RunView = (BlockView, bool);

/// How long a span lasted: a span of one sample counts a full sample.
pub open spec fn row_len(r: RowView) -> int {
    r.end_t - r.start_t + SAMPLE_S
}

/// Time spent under each title: adds `n` to `t`'s entry, or appends a new entry.
pub open spec fn add_title(ts: Seq<(Seq<char>, int)>, t: Seq<char>, n: int) -> Seq<(Seq<char>, int)>
    decreases ts.len(),
{
    if ts.len() == 0 {
        seq![(t, n)]
    } else if ts[0].0 == t {
        ts.update(0, (t, ts[0].1 + n))
    } else {
        seq![ts[0]] + add_title(ts.drop_first(), t, n)
    }
}

/// Adds every entry of `ns`, in order, to `ts`.
pub open spec fn merge_titles(ts: Seq<(Seq<char>, int)>, ns: Seq<(Seq<char>, int)>) -> Seq<
    (Seq<char>, int),
>
    decreases ns.len(),
{
    if ns.len() == 0 {
        ts
    } else {
        merge_titles(add_title(ts, ns[0].0, ns[0].1), ns.drop_first())
    }
}

/// A span breaks the run of the span before it: the lock changed, another app
/// came to the front, records are missing in between, or a new session began.
pub open spec fn splits(p: RowView, r: RowView) -> bool {
    ||| r.locked != p.locked
    ||| r.app != p.app
    ||| r.start_t - p.end_t > SAMPLE_S * 3
    ||| r.session_s < p.session_s
}

/// The block that a single span makes.
pub open spec fn block_of_row(r: RowView) -> BlockView {
    BlockView {
        start_t: r.start_t,
        end_t: r.end_t,
        app: r.app,
        active_s: r.active_s,
        titles: match r.title {
            Some(t) => seq![(t, row_len(r))],
            None => Seq::empty(),
        },
    }
}

/// A block with one more span of the same app at its end.
pub open spec fn extend_block(b: BlockView, r: RowView) -> BlockView {
    BlockView {
        start_t: b.start_t,
        end_t: r.end_t,
        app: b.app,
        active_s: b.active_s + r.active_s,
        titles: match r.title {
            Some(t) => add_title(b.titles, t, row_len(r)),
            None => b.titles,
        },
    }
}

/// Spans joined, in order, as long as the same app stays in front.
pub open spec fn runs_of(rows: Seq<RowView>) -> Seq<RunView>
    decreases rows.len(),
{
    if rows.len() == 0 {
        Seq::empty()
    } else {
        let before = runs_of(rows.drop_last());
        let r = rows.last();
        if rows.len() == 1 || splits(rows[rows.len() - 2], r) {
            before.push((block_of_row(r), r.locked))
        } else {
            before.update(before.len() - 1, (extend_block(before.last().0, r), before.last().1))
        }
    }
}

/// Run `i` is a short visit to another app between two unlocked runs of the
/// app that `out` ends with, close enough in time to be swallowed.
pub open spec fn swallows(out: Seq<RunView>, runs: Seq<RunView>, i: int) -> bool {
    &&& i + 1 < runs.len()
    &&& out.len() > 0
    &&& !runs[i].1
    &&& block_len(runs[i].0) <= FOCUS_GAP_TOLERANCE_S
    &&& out.last().0.app == runs[i + 1].0.app
    &&& !out.last().1
    &&& !runs[i + 1].1
    &&& runs[i + 1].0.start_t - out.last().0.end_t <= FOCUS_GAP_TOLERANCE_S + SAMPLE_S * 2
}

/// `a` continued by `next` across the short visit `gap`: the visit's input
/// counts, its titles do not.
pub open spec fn join_blocks(a: BlockView, gap: BlockView, next: BlockView) -> BlockView {
    BlockView {
        start_t: a.start_t,
        end_t: next.end_t,
        app: a.app,
        active_s: a.active_s + (gap.active_s + next.active_s),
        titles: merge_titles(a.titles, next.titles),
    }
}

/// One pass over `runs` from run `i`, with `out` built so far; also tells
/// whether the pass swallowed anything.
pub open spec fn pass_from(runs: Seq<RunView>, out: Seq<RunView>, i: int) -> (Seq<RunView>, bool)
    decreases runs.len() - i,
{
    if i >= runs.len() || i < 0 {
        (out, false)
    } else if swallows(out, runs, i) {
        let joined = (join_blocks(out.last().0, runs[i].0, runs[i + 1].0), out.last().1);
        (pass_from(runs, out.drop_last().push(joined), i + 2).0, true)
    } else {
        pass_from(runs, out.push(runs[i]), i + 1)
    }
}

/// A pass never grows the list of runs, and one that swallows shrinks it.
pub proof fn lemma_pass_len(runs: Seq<RunView>, out: Seq<RunView>, i: int)
    requires
        0 <= i <= runs.len(),
    ensures
        pass_from(runs, out, i).0.len() + (if pass_from(runs, out, i).1 { 1int } else { 0 })
            <= out.len() + runs.len() - i,
    decreases runs.len() - i,
{
    if i < runs.len() {
        if swallows(out, runs, i) {
            let joined = (join_blocks(out.last().0, runs[i].0, runs[i + 1].0), out.last().1);
            lemma_pass_len(runs, out.drop_last().push(joined), i + 2);
        } else {
            lemma_pass_len(runs, out.push(runs[i]), i + 1);
        }
    }
}

/// Passes repeated until one swallows nothing.
pub open spec fn merge_all(runs: Seq<RunView>) -> Seq<RunView>
    decreases runs.len(),
{
    let p = pass_from(runs, Seq::empty(), 0);
    if p.1 {
        proof {
            lemma_pass_len(runs, Seq::empty(), 0);
        }
        merge_all(p.0)
    } else {
        p.0
    }
}

/// The blocks of the runs whose screen was not locked.
pub open spec fn unlocked_blocks(runs: Seq<RunView>) -> Seq<BlockView>
    decreases runs.len(),
{
    if runs.len() == 0 {
        Seq::empty()
    } else {
        let rest = unlocked_blocks(runs.drop_last());
        if runs.last().1 {
            rest
        } else {
            rest.push(runs.last().0)
        }
    }
}

/// The candidate blocks of focus that a sequence of spans makes.
pub open spec fn focus_blocks(rows: Seq<RowView>) -> Seq<BlockView> {
    unlocked_blocks(merge_all(runs_of(rows)))
}

// ---------- title bookkeeping ----------

/// Adding `n` to the entry of `t` stays within `i64`; a new entry always does.
pub open spec fn add_title_fits(ts: Seq<(Seq<char>, int)>, t: Seq<char>, n: int) -> bool
    decreases ts.len(),
{
    if ts.len() == 0 {
        true
    } else if ts[0].0 == t {
        fits_i64(ts[0].1 + n)
    } else {
        add_title_fits(ts.drop_first(), t, n)
    }
}

/// Adding every entry of `ns`, in order, to `ts` stays within `i64`.
pub open spec fn merge_titles_fits(ts: Seq<(Seq<char>, int)>, ns: Seq<(Seq<char>, int)>) -> bool
    decreases ns.len(),
{
    ns.len() == 0 || (add_title_fits(ts, ns[0].0, ns[0].1) && merge_titles_fits(
        add_title(ts, ns[0].0, ns[0].1),
        ns.drop_first(),
    ))
}

pub(crate) proof fn lemma_add_title_at(ts: Seq<(Seq<char>, int)>, t: Seq<char>, n: int, j: int)
    requires
        0 <= j < ts.len(),
        ts[j].0 == t,
        forall|k: int| 0 <= k < j ==> ts[k].0 != t,
    ensures
        add_title(ts, t, n) == ts.update(j, (t, ts[j].1 + n)),
        add_title_fits(ts, t, n) == fits_i64(ts[j].1 + n),
    decreases ts.len(),
{
    if j > 0 {
        lemma_add_title_at(ts.drop_first(), t, n, j - 1);
        assert(add_title(ts, t, n) =~= ts.update(j, (t, ts[j].1 + n)));
    }
}

pub(crate) proof fn lemma_add_title_new(ts: Seq<(Seq<char>, int)>, t: Seq<char>, n: int)
    requires
        forall|k: int| 0 <= k < ts.len() ==> ts[k].0 != t,
    ensures
        add_title(ts, t, n) == ts.push((t, n)),
        add_title_fits(ts, t, n),
    decreases ts.len(),
{
    if ts.len() > 0 {
        lemma_add_title_new(ts.drop_first(), t, n);
        assert(add_title(ts, t, n) =~= ts.push((t, n)));
    }
}

/// Adds `n` seconds to title `t`, appending the title when it is new; fails
/// (with the list left in an unspecified state) when the sum leaves `i64`.
pub(crate) fn add_title_time(titles: &mut Vec<(String, i64)>, t: &String, n: i64) -> (ok: bool)
    ensures
        ok == add_title_fits(titles_view(old(titles)@), t@, n as int),
        ok ==> titles_view(final(titles)@) == add_title(titles_view(old(titles)@), t@, n as int),
{
    let ghost ts = titles_view(titles@);
    let len = titles.len();
    let mut j: usize = 0;
    while j < len && titles[j].0 != *t
        invariant
            len == titles@.len(),
            j <= len,
            ts == titles_view(titles@),
            forall|k: int| 0 <= k < j ==> ts[k].0 != t@,
        decreases len - j,
    {
        assert(ts[j as int].0 == titles@[j as int].0@);
        j = j + 1;
    }
    if j < len {
        proof {
            assert(ts[j as int].0 == titles@[j as int].0@);
            lemma_add_title_at(ts, t@, n as int, j as int);
        }
        let sum: i128 = titles[j].1 as i128 + n as i128;
        if sum < i64::MIN as i128 || sum > i64::MAX as i128 {
            return false;
        }
        let name = titles[j].0.clone();
        titles.set(j, (name, sum as i64));
        assert forall|k: int| 0 <= k < len implies #[trigger] titles_view(titles@)[k] == ts.update(
            j as int,
            (t@, ts[j as int].1 + n),
        )[k] by {
            if k != j {
                assert(titles@[k] == old(titles)@[k]);
            }
        }
        assert(titles_view(titles@) =~= ts.update(j as int, (t@, ts[j as int].1 + n)));
    } else {
        proof {
            lemma_add_title_new(ts, t@, n as int);
        }
        let ghost before = titles@;
        titles.push((t.clone(), n));
        assert forall|k: int| 0 <= k < len + 1 implies #[trigger] titles_view(titles@)[k]
            == ts.push((t@, n as int))[k] by {
            if k < len {
                assert(titles@[k] == before[k]);
            }
        }
        assert(titles_view(titles@) =~= ts.push((t@, n as int)));
    }
    true
}

/// Adds the title times of `more`, in order, to `titles`; fails when a sum
/// leaves `i64`.
fn merge_title_times(titles: &mut Vec<(String, i64)>, more: &Vec<(String, i64)>) -> (ok: bool)
    ensures
        ok == merge_titles_fits(titles_view(old(titles)@), titles_view(more@)),
        ok ==> titles_view(final(titles)@) == merge_titles(
            titles_view(old(titles)@),
            titles_view(more@),
        ),
{
    let ghost start = titles_view(titles@);
    let ghost ns = titles_view(more@);
    let mut j: usize = 0;
    assert(ns.skip(0) =~= ns);
    while j < more.len()
        invariant
            j <= more.len(),
            start == titles_view(old(titles)@),
            ns == titles_view(more@),
            merge_titles(start, ns) == merge_titles(titles_view(titles@), ns.skip(j as int)),
            merge_titles_fits(start, ns) == merge_titles_fits(titles_view(titles@), ns.skip(j as int)),
        decreases more.len() - j,
    {
        proof {
            assert(ns.skip(j as int).drop_first() =~= ns.skip(j + 1));
            assert(ns.skip(j as int)[0] == ns[j as int]);
            assert(ns[j as int] == (more@[j as int].0@, more@[j as int].1 as int));
        }
        let ghost cur = titles_view(titles@);
        if !add_title_time(titles, &more[j].0, more[j].1) {
            assert(!merge_titles_fits(cur, ns.skip(j as int)));
            return false;
        }
        j = j + 1;
    }
    assert(ns.skip(more.len() as int) =~= Seq::<(Seq<char>, int)>::empty());
    true
}

// ---------- views of lists ----------

pub open spec fn rows_view(v: Seq<Row>) -> Seq<RowView> {
    v.map_values(|r: Row| r@)
}

pub open spec fn runs_view(v: Seq<(Block, bool)>) -> Seq<RunView> {
    v.map_values(|p: (Block, bool)| (p.0@, p.1))
}

pub open spec fn blocks_view(v: Seq<Block>) -> Seq<BlockView> {
    v.map_values(|b: Block| b@)
}

proof fn lemma_runs_of_nonempty(rows: Seq<RowView>)
    requires
        rows.len() > 0,
    ensures
        runs_of(rows).len() > 0,
    decreases rows.len(),
{
    if rows.len() > 1 {
        lemma_runs_of_nonempty(rows.drop_last());
    }
}

proof fn lemma_runs_view_push(v: Seq<(Block, bool)>, x: (Block, bool))
    ensures
        runs_view(v.push(x)) == runs_view(v).push((x.0@, x.1)),
{
    assert(runs_view(v.push(x)) =~= runs_view(v).push((x.0@, x.1)));
}

proof fn lemma_runs_view_drop_last(v: Seq<(Block, bool)>)
    requires
        v.len() > 0,
    ensures
        runs_view(v.drop_last()) == runs_view(v).drop_last(),
{
    assert(runs_view(v.drop_last()) =~= runs_view(v).drop_last());
}

// ---------- where the arithmetic stays within i64 ----------

/// A span's length can be computed in `i64`.
pub open spec fn row_len_fits(r: RowView) -> bool {
    fits_i64(r.end_t - r.start_t) && fits_i64(row_len(r))
}

/// Extending block `b` with span `r` keeps its input time and title times within `i64`.
pub open spec fn extend_fits(b: BlockView, r: RowView) -> bool {
    &&& fits_i64(b.active_s + r.active_s)
    &&& match r.title {
        Some(t) => add_title_fits(b.titles, t, row_len(r)),
        None => true,
    }
}

/// Joining the spans into runs stays within `i64`: each span's length fits,
/// and so does every sum that a run builds up.
pub open spec fn join_fits(rows: Seq<RowView>) -> bool
    decreases rows.len(),
{
    if rows.len() == 0 {
        true
    } else {
        &&& join_fits(rows.drop_last())
        &&& row_len_fits(rows.last())
        &&& (rows.len() >= 2 && !splits(rows[rows.len() - 2], rows.last())) ==> extend_fits(
            runs_of(rows.drop_last()).last().0,
            rows.last(),
        )
    }
}

/// Joining `a` to `next` across `gap` keeps every sum within `i64`.
pub open spec fn join_blocks_fits(a: BlockView, gap: BlockView, next: BlockView) -> bool {
    &&& fits_i64(gap.active_s + next.active_s)
    &&& fits_i64(a.active_s + (gap.active_s + next.active_s))
    &&& merge_titles_fits(a.titles, next.titles)
}

/// A pass over `runs` from run `i`, with `out` built so far, stays within `i64`.
pub open spec fn pass_fits(runs: Seq<RunView>, out: Seq<RunView>, i: int) -> bool
    decreases runs.len() - i,
{
    if i >= runs.len() || i < 0 {
        true
    } else if swallows(out, runs, i) {
        let joined = (join_blocks(out.last().0, runs[i].0, runs[i + 1].0), out.last().1);
        join_blocks_fits(out.last().0, runs[i].0, runs[i + 1].0) && pass_fits(
            runs,
            out.drop_last().push(joined),
            i + 2,
        )
    } else {
        pass_fits(runs, out.push(runs[i]), i + 1)
    }
}

/// Every pass of `merge_all` stays within `i64`.
pub open spec fn merge_all_fits(runs: Seq<RunView>) -> bool
    decreases runs.len(),
{
    let p = pass_from(runs, Seq::empty(), 0);
    if !pass_fits(runs, Seq::empty(), 0) {
        false
    } else if p.1 {
        proof {
            lemma_pass_len(runs, Seq::empty(), 0);
        }
        merge_all_fits(p.0)
    } else {
        true
    }
}

/// Joining spans into blocks stays within `i64` throughout.
pub open spec fn build_fits(rows: Seq<RowView>) -> bool {
    join_fits(rows) && merge_all_fits(runs_of(rows))
}

proof fn lemma_join_fits_prefix(rows: Seq<RowView>, k: int)
    requires
        0 <= k <= rows.len(),
        join_fits(rows),
    ensures
        join_fits(rows.take(k)),
    decreases rows.len() - k,
{
    if k < rows.len() {
        lemma_join_fits_prefix(rows, k + 1);
        assert(rows.take(k + 1).drop_last() =~= rows.take(k));
    } else {
        assert(rows.take(k) =~= rows);
    }
}

// ---------- the joining ----------

/// Joins consecutive spans of the same app into runs; `None` when a length or
/// a sum leaves `i64`.
fn join_runs(rows: &[Row]) -> (res: Option<Vec<(Block, bool)>>)
    ensures
        res is Some <==> join_fits(rows_view(rows@)),
        res matches Some(runs) ==> runs_view(runs@) == runs_of(rows_view(rows@)),
{
    let ghost rv = rows_view(rows@);
    let n = rows.len();
    let mut runs: Vec<(Block, bool)> = Vec::new();
    let mut k: usize = 0;
    assert(rv.take(0) =~= Seq::<RowView>::empty());
    while k < n
        invariant
            n == rows@.len(),
            rv == rows_view(rows@),
            k <= n,
            join_fits(rv.take(k as int)),
            runs_view(runs@) == runs_of(rv.take(k as int)),
        decreases n - k,
    {
        let r = &rows[k];
        let ghost rview = rv[k as int];
        let ghost pre = rv.take(k + 1);
        assert(rview == r@);
        let ghost before = runs_view(runs@);
        proof {
            assert(pre.drop_last() =~= rv.take(k as int));
            assert(pre.last() == rview);
            if join_fits(rv) {
                lemma_join_fits_prefix(rv, k + 1);
            }
        }
        let d: i128 = r.end_t as i128 - r.start_t as i128;
        let l: i128 = d + SAMPLE_S as i128;
        if d < i64::MIN as i128 || d > i64::MAX as i128 || l < i64::MIN as i128 || l
            > i64::MAX as i128 {
            return None;
        }
        let len: i64 = l as i64;
        let brk = if k == 0 {
            true
        } else {
            let p = &rows[k - 1];
            assert(rv[k - 1] == p@);
            assert(pre[k - 1] == rv[k - 1]);
            r.locked != p.locked || !(r.app == p.app) || r.start_t as i128 - p.end_t as i128
                > SAMPLE_S as i128 * 3 || r.session_s < p.session_s
        };
        if brk {
            let mut titles: Vec<(String, i64)> = Vec::new();
            match &r.title {
                Some(t) => {
                    titles.push((t.clone(), len));
                },
                None => {},
            }
            let b = Block {
                start_t: r.start_t,
                end_t: r.end_t,
                app: r.app.clone(),
                active_s: r.active_s,
                titles,
            };
            assert(titles_view(b.titles@) =~= block_of_row(rview).titles);
            assert(b@ == block_of_row(rview));
            proof {
                lemma_runs_view_push(runs@, (b, r.locked));
            }
            runs.push((b, r.locked));
            assert(runs_view(runs@) == runs_of(pre));
        } else {
            proof {
                lemma_runs_of_nonempty(rv.take(k as int));
            }
            let ghost last = before.last();
            proof {
                lemma_runs_view_drop_last(runs@);
            }
            let (mut b, lk) = runs.pop().unwrap();
            assert(b@ == last.0 && lk == last.1);
            let sum: i128 = b.active_s as i128 + r.active_s as i128;
            if sum < i64::MIN as i128 || sum > i64::MAX as i128 {
                return None;
            }
            b.end_t = r.end_t;
            b.active_s = sum as i64;
            match &r.title {
                Some(t) => {
                    if !add_title_time(&mut b.titles, t, len) {
                        return None;
                    }
                },
                None => {},
            }
            let ghost nb = extend_block(last.0, rview);
            assert(b@ == nb);
            proof {
                lemma_runs_view_push(runs@, (b, lk));
            }
            runs.push((b, lk));
            assert(runs_view(runs@) =~= before.update(before.len() - 1, (nb, last.1)));
            assert(runs_view(runs@) == runs_of(pre));
        }
        assert(join_fits(pre));
        k = k + 1;
    }
    assert(rv.take(n as int) =~= rv);
    Some(runs)
}

/// One pass that swallows short visits between runs of the same app; `None`
/// when a sum leaves `i64`.
fn merge_pass(runs: &Vec<(Block, bool)>) -> (res: Option<(Vec<(Block, bool)>, bool)>)
    ensures
        res is Some <==> pass_fits(runs_view(runs@), Seq::empty(), 0),
        res matches Some(p) ==> runs_view(p.0@) == pass_from(runs_view(runs@), Seq::empty(), 0).0
            && p.1 == pass_from(runs_view(runs@), Seq::empty(), 0).1,
{
    let ghost rv = runs_view(runs@);
    let n = runs.len();
    let mut out: Vec<(Block, bool)> = Vec::new();
    let mut merged = false;
    let mut i: usize = 0;
    assert(runs_view(out@) =~= Seq::<RunView>::empty());
    while i < n
        invariant
            n == runs@.len(),
            rv == runs_view(runs@),
            i <= n,
            pass_from(rv, Seq::empty(), 0) == (
                pass_from(rv, runs_view(out@), i as int).0,
                merged || pass_from(rv, runs_view(out@), i as int).1,
            ),
            pass_fits(rv, Seq::empty(), 0) == pass_fits(rv, runs_view(out@), i as int),
        decreases n - i,
    {
        let ghost ov = runs_view(out@);
        assert(rv[i as int] == (runs@[i as int].0@, runs@[i as int].1));
        let swallow = i + 1 < n && out.len() > 0 && !runs[i].1 && runs[i].0.end_t as i128
            - runs[i].0.start_t as i128 + SAMPLE_S as i128 <= FOCUS_GAP_TOLERANCE_S as i128 && {
            let li = out.len() - 1;
            assert(ov[li as int] == (out@[li as int].0@, out@[li as int].1));
            assert(rv[i + 1] == (runs@[i + 1].0@, runs@[i + 1].1));
            out[li].0.app == runs[i + 1].0.app && !out[li].1 && !runs[i + 1].1 && runs[i
                + 1].0.start_t as i128 - out[li].0.end_t as i128 <= FOCUS_GAP_TOLERANCE_S as i128
                + SAMPLE_S as i128 * 2
        };
        assert(swallow == swallows(ov, rv, i as int));
        if swallow {
            proof {
                lemma_runs_view_drop_last(out@);
            }
            let ghost a = ov.last();
            let ghost joined = (join_blocks(a.0, rv[i as int].0, rv[i + 1].0), a.1);
            let gap_active = runs[i].0.active_s;
            let (mut last, lk) = out.pop().unwrap();
            assert(last@ == a.0 && lk == a.1);
            let next = &runs[i + 1].0;
            let inner: i128 = gap_active as i128 + next.active_s as i128;
            if inner < i64::MIN as i128 || inner > i64::MAX as i128 {
                return None;
            }
            let total: i128 = last.active_s as i128 + inner;
            if total < i64::MIN as i128 || total > i64::MAX as i128 {
                return None;
            }
            last.end_t = next.end_t;
            last.active_s = total as i64;
            if !merge_title_times(&mut last.titles, &next.titles) {
                return None;
            }
            assert(last@ == joined.0);
            proof {
                lemma_runs_view_push(out@, (last, lk));
            }
            out.push((last, lk));
            assert(runs_view(out@) =~= ov.drop_last().push(joined));
            merged = true;
            i = i + 2;
        } else {
            let b = runs[i].0.clone();
            let lk = runs[i].1;
            proof {
                lemma_runs_view_push(out@, (b, lk));
            }
            out.push((b, lk));
            assert(runs_view(out@) == ov.push(rv[i as int]));
            i = i + 1;
        }
    }
    Some((out, merged))
}

/// Repeats passes until a pass swallows nothing; `None` when a sum leaves `i64`.
fn merge_short_gaps(runs: Vec<(Block, bool)>) -> (res: Option<Vec<(Block, bool)>>)
    ensures
        res is Some <==> merge_all_fits(runs_view(runs@)),
        res matches Some(r) ==> runs_view(r@) == merge_all(runs_view(runs@)),
{
    let ghost start = runs_view(runs@);
    let mut runs = runs;
    let mut done = false;
    #[verifier::loop_isolation(false)]
    while !done
        invariant
            done ==> runs_view(runs@) == merge_all(start) && merge_all_fits(start),
            !done ==> merge_all(runs_view(runs@)) == merge_all(start) && merge_all_fits(
                runs_view(runs@),
            ) == merge_all_fits(start),
        decreases runs@.len() + (if done { 0int } else { 1 }),
    {
        let res = merge_pass(&runs);
        proof {
            lemma_pass_len(runs_view(runs@), Seq::empty(), 0);
        }
        match res {
            Some((out, merged)) => {
                runs = out;
                if !merged {
                    done = true;
                }
            },
            None => {
                assert(!merge_all_fits(runs_view(runs@)));
                return None;
            },
        }
    }
    Some(runs)
}

/// The blocks of the runs whose screen was not locked, in order.
fn unlocked(runs: &Vec<(Block, bool)>) -> (r: Vec<Block>)
    ensures
        blocks_view(r@) == unlocked_blocks(runs_view(runs@)),
{
    let ghost rv = runs_view(runs@);
    let mut r: Vec<Block> = Vec::new();
    let mut i: usize = 0;
    assert(rv.take(0) =~= Seq::<RunView>::empty());
    assert(blocks_view(r@) =~= Seq::<BlockView>::empty());
    while i < runs.len()
        invariant
            i <= runs.len(),
            rv == runs_view(runs@),
            blocks_view(r@) == unlocked_blocks(rv.take(i as int)),
        decreases runs.len() - i,
    {
        assert(rv.take(i + 1).drop_last() =~= rv.take(i as int));
        assert(rv[i as int] == (runs@[i as int].0@, runs@[i as int].1));
        if !runs[i].1 {
            let b = runs[i].0.clone();
            let ghost before = r@;
            r.push(b);
            assert(blocks_view(r@) =~= blocks_view(before).push(b@));
        }
        i = i + 1;
    }
    assert(rv.take(runs.len() as int) =~= rv);
    r
}

/// Joins spans, app by app, into candidate blocks of focus, or `None` when a
/// length or a sum would leave `i64` on the way (see `build_fits`).
pub fn try_build_blocks(rows: &[Row]) -> (res: Option<Vec<Block>>)
    ensures
        res is Some <==> build_fits(rows_view(rows@)),
        res matches Some(r) ==> blocks_view(r@) == focus_blocks(rows_view(rows@)),
{
    match join_runs(rows) {
        Some(runs) => match merge_short_gaps(runs) {
            Some(merged) => Some(unlocked(&merged)),
            None => None,
        },
        None => None,
    }
}

/// Joins spans, app by app, into candidate blocks of focus: spans cut at an
/// hour boundary join again, and so do spans of one app under different
/// titles. Four things break a block: another app (beyond the tolerance), a
/// lock, a new session, and a gap in the records. Locked blocks are left out.
pub fn build_blocks(rows: &[Row]) -> (r: Vec<Block>)
    requires
        build_fits(rows_view(rows@)),
    ensures
        blocks_view(r@) == focus_blocks(rows_view(rows@)),
{
    match try_build_blocks(rows) {
        Some(r) => r,
        None => Vec::new(),
    }
}

/// The blocks that count as focus, in order.
pub open spec fn focus_only(bs: Seq<BlockView>) -> Seq<BlockView>
    decreases bs.len(),
{
    if bs.len() == 0 {
        Seq::empty()
    } else if focused(bs.last()) {
        focus_only(bs.drop_last()).push(bs.last())
    } else {
        focus_only(bs.drop_last())
    }
}

/// The blocks of focus among the spans, in order: the blocks of `build_blocks`
/// that `is_focus` accepts; `None` when joining would leave `i64`.
pub fn focus_list(rows: &[Row]) -> (res: Option<Vec<Block>>)
    ensures
        res is Some <==> build_fits(rows_view(rows@)),
        res matches Some(r) ==> blocks_view(r@) == focus_only(focus_blocks(rows_view(rows@))),
{
    let blocks = match try_build_blocks(rows) {
        Some(b) => b,
        None => return None,
    };
    let ghost bv = blocks_view(blocks@);
    let mut r: Vec<Block> = Vec::new();
    let mut i: usize = 0;
    assert(bv.take(0) =~= Seq::<BlockView>::empty());
    assert(blocks_view(r@) =~= Seq::<BlockView>::empty());
    while i < blocks.len()
        invariant
            i <= blocks.len(),
            bv == blocks_view(blocks@),
            blocks_view(r@) == focus_only(bv.take(i as int)),
        decreases blocks.len() - i,
    {
        assert(bv.take(i + 1).drop_last() =~= bv.take(i as int));
        assert(bv[i as int] == blocks@[i as int]@);
        if is_focus(&blocks[i]) {
            let b = blocks[i].clone();
            let ghost before = r@;
            r.push(b);
            assert(blocks_view(r@) =~= blocks_view(before).push(b@));
        }
        i = i + 1;
    }
    assert(bv.take(blocks.len() as int) =~= bv);
    Some(r)
}

// ---------- laws ----------

/// The input seconds of the spans whose screen was not locked.
pub open spec fn unlocked_rows_active(rows: Seq<RowView>) -> int
    decreases rows.len(),
{
    if rows.len() == 0 {
        0
    } else {
        unlocked_rows_active(rows.drop_last()) + (if rows.last().locked {
            0
        } else {
            rows.last().active_s
        })
    }
}

/// The input seconds of the runs whose screen was not locked.
pub open spec fn unlocked_runs_active(runs: Seq<RunView>) -> int
    decreases runs.len(),
{
    if runs.len() == 0 {
        0
    } else {
        unlocked_runs_active(runs.drop_last()) + (if runs.last().1 {
            0
        } else {
            runs.last().0.active_s
        })
    }
}

/// The input seconds of blocks.
pub open spec fn blocks_active(bs: Seq<BlockView>) -> int
    decreases bs.len(),
{
    if bs.len() == 0 {
        0
    } else {
        blocks_active(bs.drop_last()) + bs.last().active_s
    }
}

proof fn lemma_runs_of_last(rows: Seq<RowView>)
    requires
        rows.len() > 0,
    ensures
        runs_of(rows).len() > 0,
        runs_of(rows).last().1 == rows.last().locked,
    decreases rows.len(),
{
    if rows.len() > 1 {
        lemma_runs_of_last(rows.drop_last());
        assert(rows.drop_last().last() == rows[rows.len() - 2]);
    }
}

proof fn lemma_runs_of_unlocked(rows: Seq<RowView>)
    ensures
        unlocked_runs_active(runs_of(rows)) == unlocked_rows_active(rows),
    decreases rows.len(),
{
    if rows.len() > 0 {
        lemma_runs_of_unlocked(rows.drop_last());
        let before = runs_of(rows.drop_last());
        let r = rows.last();
        if rows.len() == 1 || splits(rows[rows.len() - 2], r) {
            assert(runs_of(rows).drop_last() =~= before);
        } else {
            lemma_runs_of_last(rows.drop_last());
            assert(rows.drop_last().last() == rows[rows.len() - 2]);
            assert(runs_of(rows).drop_last() =~= before.drop_last());
        }
    }
}

proof fn lemma_unlocked_runs_step(runs: Seq<RunView>, k: int)
    requires
        0 <= k < runs.len(),
    ensures
        unlocked_runs_active(runs.take(k + 1)) == unlocked_runs_active(runs.take(k)) + (if runs[k].1 {
            0
        } else {
            runs[k].0.active_s
        }),
{
    assert(runs.take(k + 1).drop_last() =~= runs.take(k));
}

proof fn lemma_pass_unlocked(runs: Seq<RunView>, out: Seq<RunView>, i: int)
    requires
        0 <= i <= runs.len(),
    ensures
        unlocked_runs_active(pass_from(runs, out, i).0) == unlocked_runs_active(out)
            + unlocked_runs_active(runs) - unlocked_runs_active(runs.take(i)),
    decreases runs.len() - i,
{
    if i < runs.len() {
        lemma_unlocked_runs_step(runs, i);
        if swallows(out, runs, i) {
            lemma_unlocked_runs_step(runs, i + 1);
            let joined = (join_blocks(out.last().0, runs[i].0, runs[i + 1].0), out.last().1);
            let out2 = out.drop_last().push(joined);
            assert(out2.drop_last() =~= out.drop_last());
            lemma_pass_unlocked(runs, out2, i + 2);
        } else {
            assert(out.push(runs[i]).drop_last() =~= out);
            lemma_pass_unlocked(runs, out.push(runs[i]), i + 1);
        }
    } else {
        assert(runs.take(i) =~= runs);
    }
}

proof fn lemma_merge_all_unlocked(runs: Seq<RunView>)
    ensures
        unlocked_runs_active(merge_all(runs)) == unlocked_runs_active(runs),
    decreases runs.len(),
{
    let p = pass_from(runs, Seq::empty(), 0);
    lemma_pass_unlocked(runs, Seq::empty(), 0);
    assert(runs.take(0) =~= Seq::<RunView>::empty());
    assert(unlocked_runs_active(Seq::<RunView>::empty()) == 0);
    if p.1 {
        lemma_pass_len(runs, Seq::empty(), 0);
        lemma_merge_all_unlocked(p.0);
    }
}

proof fn lemma_unlocked_blocks_active(runs: Seq<RunView>)
    ensures
        blocks_active(unlocked_blocks(runs)) == unlocked_runs_active(runs),
    decreases runs.len(),
{
    if runs.len() > 0 {
        lemma_unlocked_blocks_active(runs.drop_last());
        let rest = unlocked_blocks(runs.drop_last());
        if !runs.last().1 {
            assert(rest.push(runs.last().0).drop_last() =~= rest);
        }
    }
}

/// Input time is kept: the blocks hold, in all, exactly the input seconds of
/// the spans whose screen was not locked. Every second of input in an
/// unlocked span lands in a block, and locked spans add nothing.
pub proof fn lemma_focus_keeps_input(rows: Seq<RowView>)
    ensures
        blocks_active(focus_blocks(rows)) == unlocked_rows_active(rows),
{
    lemma_runs_of_unlocked(rows);
    lemma_merge_all_unlocked(runs_of(rows));
    lemma_unlocked_blocks_active(merge_all(runs_of(rows)));
}

/// No title appears twice in a title list.
pub open spec fn distinct_titles(ts: Seq<(Seq<char>, int)>) -> bool {
    forall|i: int, j: int| 0 <= i < j < ts.len() ==> #[trigger] ts[i].0 != #[trigger] ts[j].0
}

proof fn lemma_add_title_names(ts: Seq<(Seq<char>, int)>, t: Seq<char>, n: int, k: int)
    requires
        0 <= k < add_title(ts, t, n).len(),
    ensures
        add_title(ts, t, n)[k].0 == t || exists|j: int|
            0 <= j < ts.len() && #[trigger] ts[j].0 == add_title(ts, t, n)[k].0,
    decreases ts.len(),
{
    if ts.len() > 0 && ts[0].0 != t {
        if k > 0 {
            lemma_add_title_names(ts.drop_first(), t, n, k - 1);
            if add_title(ts.drop_first(), t, n)[k - 1].0 != t {
                let j = choose|j: int|
                    0 <= j < ts.drop_first().len() && #[trigger] ts.drop_first()[j].0 == add_title(
                        ts.drop_first(),
                        t,
                        n,
                    )[k - 1].0;
                assert(ts[j + 1].0 == add_title(ts, t, n)[k].0);
            }
        } else {
            assert(ts[0].0 == add_title(ts, t, n)[k].0);
        }
    } else if ts.len() > 0 {
        if k > 0 {
            assert(ts[k].0 == add_title(ts, t, n)[k].0);
        }
    }
}

proof fn lemma_add_title_distinct(ts: Seq<(Seq<char>, int)>, t: Seq<char>, n: int)
    requires
        distinct_titles(ts),
    ensures
        distinct_titles(add_title(ts, t, n)),
    decreases ts.len(),
{
    if ts.len() > 0 && ts[0].0 != t {
        let rest = ts.drop_first();
        lemma_add_title_distinct(rest, t, n);
        let r = add_title(ts, t, n);
        assert forall|i: int, j: int| 0 <= i < j < r.len() implies #[trigger] r[i].0
            != #[trigger] r[j].0 by {
            if i == 0 {
                lemma_add_title_names(rest, t, n, j - 1);
                if add_title(rest, t, n)[j - 1].0 != t {
                    let m = choose|m: int|
                        0 <= m < rest.len() && #[trigger] rest[m].0 == add_title(rest, t, n)[j
                            - 1].0;
                    assert(ts[m + 1].0 == rest[m].0);
                }
            } else {
                assert(r[i] == add_title(rest, t, n)[i - 1]);
                assert(r[j] == add_title(rest, t, n)[j - 1]);
            }
        }
    } else if ts.len() > 0 {
        let r = add_title(ts, t, n);
        assert forall|i: int, j: int| 0 <= i < j < r.len() implies #[trigger] r[i].0
            != #[trigger] r[j].0 by {
            assert(r[i].0 == ts[i].0);
            assert(r[j].0 == ts[j].0);
        }
    }
}

proof fn lemma_merge_titles_distinct(ts: Seq<(Seq<char>, int)>, ns: Seq<(Seq<char>, int)>)
    requires
        distinct_titles(ts),
    ensures
        distinct_titles(merge_titles(ts, ns)),
    decreases ns.len(),
{
    if ns.len() > 0 {
        lemma_add_title_distinct(ts, ns[0].0, ns[0].1);
        lemma_merge_titles_distinct(add_title(ts, ns[0].0, ns[0].1), ns.drop_first());
    }
}

/// Every run of a list has distinct titles.
pub open spec fn runs_distinct(runs: Seq<RunView>) -> bool {
    forall|i: int| 0 <= i < runs.len() ==> distinct_titles(#[trigger] runs[i].0.titles)
}

proof fn lemma_runs_of_distinct(rows: Seq<RowView>)
    ensures
        runs_distinct(runs_of(rows)),
    decreases rows.len(),
{
    if rows.len() > 0 {
        lemma_runs_of_distinct(rows.drop_last());
        let before = runs_of(rows.drop_last());
        let r = rows.last();
        let now = runs_of(rows);
        if rows.len() == 1 || splits(rows[rows.len() - 2], r) {
            assert forall|i: int| 0 <= i < now.len() implies distinct_titles(
                #[trigger] now[i].0.titles,
            ) by {
                if i < before.len() {
                    assert(now[i] == before[i]);
                }
            }
        } else {
            lemma_runs_of_nonempty(rows.drop_last());
            let last = before.last();
            assert(distinct_titles(before[before.len() - 1].0.titles));
            match r.title {
                Some(t) => {
                    lemma_add_title_distinct(last.0.titles, t, row_len(r));
                },
                None => {},
            }
            assert forall|i: int| 0 <= i < now.len() implies distinct_titles(
                #[trigger] now[i].0.titles,
            ) by {
                if i < before.len() - 1 {
                    assert(now[i] == before[i]);
                }
            }
        }
    }
}

proof fn lemma_pass_distinct(runs: Seq<RunView>, out: Seq<RunView>, i: int)
    requires
        0 <= i <= runs.len(),
        runs_distinct(runs),
        runs_distinct(out),
    ensures
        runs_distinct(pass_from(runs, out, i).0),
    decreases runs.len() - i,
{
    if i < runs.len() {
        if swallows(out, runs, i) {
            let a = out.last();
            assert(distinct_titles(out[out.len() - 1].0.titles));
            lemma_merge_titles_distinct(a.0.titles, runs[i + 1].0.titles);
            let joined = (join_blocks(a.0, runs[i].0, runs[i + 1].0), a.1);
            let out2 = out.drop_last().push(joined);
            assert forall|k: int| 0 <= k < out2.len() implies distinct_titles(
                #[trigger] out2[k].0.titles,
            ) by {
                if k < out.len() - 1 {
                    assert(out2[k] == out[k]);
                }
            }
            lemma_pass_distinct(runs, out2, i + 2);
        } else {
            let out2 = out.push(runs[i]);
            assert forall|k: int| 0 <= k < out2.len() implies distinct_titles(
                #[trigger] out2[k].0.titles,
            ) by {
                if k < out.len() {
                    assert(out2[k] == out[k]);
                }
            }
            lemma_pass_distinct(runs, out2, i + 1);
        }
    }
}

proof fn lemma_merge_all_distinct(runs: Seq<RunView>)
    requires
        runs_distinct(runs),
    ensures
        runs_distinct(merge_all(runs)),
    decreases runs.len(),
{
    let p = pass_from(runs, Seq::empty(), 0);
    lemma_pass_distinct(runs, Seq::empty(), 0);
    if p.1 {
        lemma_pass_len(runs, Seq::empty(), 0);
        lemma_merge_all_distinct(p.0);
    }
}

proof fn lemma_unlocked_blocks_distinct(runs: Seq<RunView>)
    requires
        runs_distinct(runs),
    ensures
        forall|i: int|
            0 <= i < unlocked_blocks(runs).len() ==> distinct_titles(
                #[trigger] unlocked_blocks(runs)[i].titles,
            ),
    decreases runs.len(),
{
    if runs.len() > 0 {
        assert(runs_distinct(runs.drop_last())) by {
            assert forall|i: int| 0 <= i < runs.drop_last().len() implies distinct_titles(
                #[trigger] runs.drop_last()[i].0.titles,
            ) by {
                assert(runs.drop_last()[i] == runs[i]);
            }
        }
        lemma_unlocked_blocks_distinct(runs.drop_last());
        assert(distinct_titles(runs[runs.len() - 1].0.titles));
        let rest = unlocked_blocks(runs.drop_last());
        let u = unlocked_blocks(runs);
        assert forall|i: int| 0 <= i < u.len() implies distinct_titles(#[trigger] u[i].titles) by {
            if i < rest.len() {
                assert(u[i] == rest[i]);
            }
        }
    }
}

/// Within a block, each title has one entry: time under a title seen again
/// is added to its entry.
pub proof fn lemma_focus_titles_distinct(rows: Seq<RowView>)
    ensures
        forall|i: int|
            0 <= i < focus_blocks(rows).len() ==> distinct_titles(#[trigger] focus_blocks(rows)[i].titles),
{
    lemma_runs_of_distinct(rows);
    lemma_merge_all_distinct(runs_of(rows));
    lemma_unlocked_blocks_distinct(merge_all(runs_of(rows)));
}

/// The title that names a block has the most time, and every title after it
/// has strictly less.
pub proof fn lemma_top_index_longest(ts: Seq<(Seq<char>, int)>)
    requires
        ts.len() > 0,
    ensures
        0 <= top_index(ts) < ts.len(),
        forall|j: int| 0 <= j < ts.len() ==> #[trigger] ts[j].1 <= ts[top_index(ts)].1,
        forall|j: int| top_index(ts) < j < ts.len() ==> #[trigger] ts[j].1 < ts[top_index(ts)].1,
    decreases ts.len(),
{
    if ts.len() > 1 {
        let d = ts.drop_last();
        lemma_top_index_longest(d);
        assert forall|j: int| 0 <= j < d.len() implies #[trigger] ts[j].1 == d[j].1 by {}
    }
}

// ---------- structure of the blocks ----------

/// How many spans have an unlocked screen.
pub open spec fn unlocked_rows(rows: Seq<RowView>) -> nat
    decreases rows.len(),
{
    if rows.len() == 0 {
        0
    } else {
        unlocked_rows(rows.drop_last()) + (if rows.last().locked {
            0nat
        } else {
            1
        })
    }
}

/// How many runs have an unlocked screen.
pub open spec fn unlocked_runs(runs: Seq<RunView>) -> nat
    decreases runs.len(),
{
    if runs.len() == 0 {
        0
    } else {
        unlocked_runs(runs.drop_last()) + (if runs.last().1 {
            0nat
        } else {
            1
        })
    }
}

proof fn lemma_unlocked_rows_none(rows: Seq<RowView>)
    ensures
        unlocked_rows(rows) == 0 <==> forall|k: int| 0 <= k < rows.len() ==> #[trigger] rows[k].locked,
    decreases rows.len(),
{
    if rows.len() > 0 {
        let d = rows.drop_last();
        lemma_unlocked_rows_none(d);
        if unlocked_rows(rows) == 0 {
            assert forall|k: int| 0 <= k < rows.len() implies #[trigger] rows[k].locked by {
                if k < d.len() {
                    assert(rows[k] == d[k]);
                }
            }
        }
        if forall|k: int| 0 <= k < rows.len() ==> #[trigger] rows[k].locked {
            assert forall|k: int| 0 <= k < d.len() implies #[trigger] d[k].locked by {
                assert(d[k] == rows[k]);
            }
            assert(rows[rows.len() - 1].locked);
        }
    }
}

proof fn lemma_runs_of_unlocked_count(rows: Seq<RowView>)
    ensures
        (unlocked_runs(runs_of(rows)) > 0) == (unlocked_rows(rows) > 0),
        runs_of(rows).len() <= rows.len(),
    decreases rows.len(),
{
    if rows.len() > 0 {
        let d = rows.drop_last();
        lemma_runs_of_unlocked_count(d);
        let before = runs_of(d);
        let r = rows.last();
        if rows.len() == 1 || splits(rows[rows.len() - 2], r) {
            assert(runs_of(rows).drop_last() =~= before);
        } else {
            lemma_runs_of_last(d);
            assert(d.last() == rows[rows.len() - 2]);
            assert(runs_of(rows).drop_last() =~= before.drop_last());
        }
    }
}

proof fn lemma_unlocked_runs_take(runs: Seq<RunView>, k: int)
    requires
        0 <= k < runs.len(),
    ensures
        unlocked_runs(runs.take(k + 1)) == unlocked_runs(runs.take(k)) + (if runs[k].1 {
            0nat
        } else {
            1
        }),
{
    assert(runs.take(k + 1).drop_last() =~= runs.take(k));
}

proof fn lemma_pass_unlocked_count(runs: Seq<RunView>, out: Seq<RunView>, i: int)
    requires
        0 <= i <= runs.len(),
    ensures
        (unlocked_runs(pass_from(runs, out, i).0) > 0) == (unlocked_runs(out) > 0 || unlocked_runs(
            runs,
        ) > unlocked_runs(runs.take(i))),
    decreases runs.len() - i,
{
    lemma_unlocked_runs_prefix(runs, i);
    if i < runs.len() {
        lemma_unlocked_runs_take(runs, i);
        if swallows(out, runs, i) {
            let joined = (join_blocks(out.last().0, runs[i].0, runs[i + 1].0), out.last().1);
            let out2 = out.drop_last().push(joined);
            assert(out2.drop_last() =~= out.drop_last());
            assert(out2.last() == joined);
            assert(unlocked_runs(out2) > 0);
            assert(unlocked_runs(out) > 0);
            lemma_pass_unlocked_count(runs, out2, i + 2);
        } else {
            assert(out.push(runs[i]).drop_last() =~= out);
            lemma_unlocked_runs_prefix(runs, i + 1);
            lemma_pass_unlocked_count(runs, out.push(runs[i]), i + 1);
        }
    } else {
        assert(runs.take(i) =~= runs);
    }
}

proof fn lemma_unlocked_runs_prefix(runs: Seq<RunView>, k: int)
    requires
        0 <= k <= runs.len(),
    ensures
        unlocked_runs(runs.take(k)) <= unlocked_runs(runs),
    decreases runs.len() - k,
{
    if k < runs.len() {
        lemma_unlocked_runs_prefix(runs, k + 1);
        lemma_unlocked_runs_take(runs, k);
    } else {
        assert(runs.take(k) =~= runs);
    }
}

proof fn lemma_merge_all_unlocked_count(runs: Seq<RunView>)
    ensures
        (unlocked_runs(merge_all(runs)) > 0) == (unlocked_runs(runs) > 0),
        merge_all(runs).len() <= runs.len(),
    decreases runs.len(),
{
    let p = pass_from(runs, Seq::empty(), 0);
    lemma_pass_unlocked_count(runs, Seq::empty(), 0);
    lemma_pass_len(runs, Seq::empty(), 0);
    assert(runs.take(0) =~= Seq::<RunView>::empty());
    assert(unlocked_runs(Seq::<RunView>::empty()) == 0);
    if p.1 {
        lemma_merge_all_unlocked_count(p.0);
    }
}

proof fn lemma_unlocked_blocks_len(runs: Seq<RunView>)
    ensures
        unlocked_blocks(runs).len() == unlocked_runs(runs),
        unlocked_runs(runs) <= runs.len(),
    decreases runs.len(),
{
    if runs.len() > 0 {
        lemma_unlocked_blocks_len(runs.drop_last());
    }
}

/// There are no blocks exactly when every span had its screen locked (so no
/// spans give no blocks), and never more blocks than spans.
pub proof fn lemma_focus_blocks_empty(rows: Seq<RowView>)
    ensures
        focus_blocks(rows).len() == 0 <==> forall|k: int|
            0 <= k < rows.len() ==> #[trigger] rows[k].locked,
        focus_blocks(rows).len() <= rows.len(),
{
    lemma_unlocked_rows_none(rows);
    lemma_runs_of_unlocked_count(rows);
    lemma_merge_all_unlocked_count(runs_of(rows));
    lemma_unlocked_blocks_len(merge_all(runs_of(rows)));
}

/// Spans in time order: each starts no later than it ends, and ends before
/// the next one starts.
pub open spec fn spans_in_order(rows: Seq<RowView>) -> bool {
    &&& forall|k: int| 0 <= k < rows.len() ==> #[trigger] rows[k].start_t <= rows[k].end_t
    &&& forall|k: int| 0 <= k < rows.len() - 1 ==> #[trigger] rows[k].end_t < rows[k + 1].start_t
}

/// Runs in time order: each starts no later than it ends, and ends before
/// every later one starts.
pub open spec fn runs_in_order(runs: Seq<RunView>) -> bool {
    &&& forall|k: int| 0 <= k < runs.len() ==> #[trigger] runs[k].0.start_t <= runs[k].0.end_t
    &&& forall|k: int, l: int|
        0 <= k < l < runs.len() ==> #[trigger] runs[k].0.end_t < #[trigger] runs[l].0.start_t
}

/// Blocks in time order: each starts no later than it ends, and ends before
/// every later one starts.
pub open spec fn blocks_in_order(bs: Seq<BlockView>) -> bool {
    &&& forall|k: int| 0 <= k < bs.len() ==> #[trigger] bs[k].start_t <= bs[k].end_t
    &&& forall|k: int, l: int| 0 <= k < l < bs.len() ==> #[trigger] bs[k].end_t < #[trigger] bs[l].start_t
}

proof fn lemma_runs_of_in_order(rows: Seq<RowView>)
    requires
        spans_in_order(rows),
    ensures
        runs_in_order(runs_of(rows)),
        rows.len() > 0 ==> runs_of(rows).len() > 0 && runs_of(rows).last().0.end_t
            == rows.last().end_t,
    decreases rows.len(),
{
    if rows.len() > 0 {
        let d = rows.drop_last();
        assert(spans_in_order(d)) by {
            assert forall|k: int| 0 <= k < d.len() implies #[trigger] d[k].start_t <= d[k].end_t by {
                assert(d[k] == rows[k]);
            }
            assert forall|k: int| 0 <= k < d.len() - 1 implies #[trigger] d[k].end_t < d[k
                + 1].start_t by {
                assert(d[k] == rows[k] && d[k + 1] == rows[k + 1]);
            }
        }
        lemma_runs_of_in_order(d);
        let before = runs_of(d);
        let r = rows.last();
        let now = runs_of(rows);
        assert(r.start_t <= r.end_t);
        if rows.len() >= 2 {
            assert(d.last() == rows[rows.len() - 2]);
            assert(d.last().end_t < r.start_t);
        }
        if rows.len() == 1 || splits(rows[rows.len() - 2], r) {
            assert forall|k: int, l: int| 0 <= k < l < now.len() implies #[trigger] now[k].0.end_t
                < #[trigger] now[l].0.start_t by {
                if l < before.len() {
                    assert(now[k] == before[k] && now[l] == before[l]);
                } else {
                    assert(now[k] == before[k]);
                    if k < before.len() - 1 {
                        assert(before[k].0.end_t < before[before.len() - 1].0.start_t);
                    }
                }
            }
            assert forall|k: int| 0 <= k < now.len() implies #[trigger] now[k].0.start_t
                <= now[k].0.end_t by {
                if k < before.len() {
                    assert(now[k] == before[k]);
                }
            }
        } else {
            let n = before.len() - 1;
            assert forall|k: int, l: int| 0 <= k < l < now.len() implies #[trigger] now[k].0.end_t
                < #[trigger] now[l].0.start_t by {
                assert(now[k] == before[k]);
                if l < n {
                    assert(now[l] == before[l]);
                } else {
                    assert(now[l].0.start_t == before[n].0.start_t);
                }
            }
            assert forall|k: int| 0 <= k < now.len() implies #[trigger] now[k].0.start_t
                <= now[k].0.end_t by {
                if k < n {
                    assert(now[k] == before[k]);
                } else {
                    assert(before[n].0.start_t <= before[n].0.end_t);
                }
            }
        }
    }
}

proof fn lemma_pass_in_order(runs: Seq<RunView>, out: Seq<RunView>, i: int)
    requires
        0 <= i <= runs.len(),
        runs_in_order(runs),
        runs_in_order(out),
        forall|a: int, k: int|
            0 <= a < out.len() && i <= k < runs.len() ==> #[trigger] out[a].0.end_t
                < #[trigger] runs[k].0.start_t,
    ensures
        runs_in_order(pass_from(runs, out, i).0),
    decreases runs.len() - i,
{
    if i < runs.len() {
        if swallows(out, runs, i) {
            let a = out.last();
            let n = out.len() - 1;
            let joined = (join_blocks(a.0, runs[i].0, runs[i + 1].0), a.1);
            let out2 = out.drop_last().push(joined);
            assert(out[n].0.end_t < runs[i + 1].0.start_t);
            assert(runs[i + 1].0.start_t <= runs[i + 1].0.end_t);
            assert forall|x: int, y: int| 0 <= x < y < out2.len() implies #[trigger] out2[x].0.end_t
                < #[trigger] out2[y].0.start_t by {
                assert(out2[x] == out[x]);
                if y < n {
                    assert(out2[y] == out[y]);
                } else {
                    assert(out[x].0.end_t < out[n].0.start_t);
                }
            }
            assert forall|x: int| 0 <= x < out2.len() implies #[trigger] out2[x].0.start_t
                <= out2[x].0.end_t by {
                if x < n {
                    assert(out2[x] == out[x]);
                } else {
                    assert(out[n].0.start_t <= out[n].0.end_t);
                }
            }
            assert forall|x: int, k: int| 0 <= x < out2.len() && i + 2 <= k < runs.len() implies #[trigger] out2[x].0.end_t
                < #[trigger] runs[k].0.start_t by {
                if x < n {
                    assert(out2[x] == out[x]);
                } else {
                    assert(runs[i + 1].0.end_t < runs[k].0.start_t);
                }
            }
            lemma_pass_in_order(runs, out2, i + 2);
        } else {
            let out2 = out.push(runs[i]);
            assert forall|x: int, y: int| 0 <= x < y < out2.len() implies #[trigger] out2[x].0.end_t
                < #[trigger] out2[y].0.start_t by {
                assert(out2[x] == out[x]);
                if y < out.len() {
                    assert(out2[y] == out[y]);
                }
            }
            assert forall|x: int| 0 <= x < out2.len() implies #[trigger] out2[x].0.start_t
                <= out2[x].0.end_t by {
                if x < out.len() {
                    assert(out2[x] == out[x]);
                }
            }
            assert forall|x: int, k: int| 0 <= x < out2.len() && i + 1 <= k < runs.len() implies #[trigger] out2[x].0.end_t
                < #[trigger] runs[k].0.start_t by {
                if x < out.len() {
                    assert(out2[x] == out[x]);
                }
            }
            lemma_pass_in_order(runs, out2, i + 1);
        }
    }
}

proof fn lemma_merge_all_in_order(runs: Seq<RunView>)
    requires
        runs_in_order(runs),
    ensures
        runs_in_order(merge_all(runs)),
    decreases runs.len(),
{
    let p = pass_from(runs, Seq::empty(), 0);
    lemma_pass_in_order(runs, Seq::empty(), 0);
    if p.1 {
        lemma_pass_len(runs, Seq::empty(), 0);
        lemma_merge_all_in_order(p.0);
    }
}

proof fn lemma_unlocked_blocks_in_order(runs: Seq<RunView>)
    requires
        runs_in_order(runs),
    ensures
        blocks_in_order(unlocked_blocks(runs)),
        runs.len() > 0 ==> forall|k: int|
            0 <= k < unlocked_blocks(runs).len() ==> #[trigger] unlocked_blocks(runs)[k].end_t
                <= runs.last().0.end_t,
    decreases runs.len(),
{
    if runs.len() > 0 {
        let d = runs.drop_last();
        assert(runs_in_order(d)) by {
            assert forall|k: int, l: int| 0 <= k < l < d.len() implies #[trigger] d[k].0.end_t
                < #[trigger] d[l].0.start_t by {
                assert(d[k] == runs[k] && d[l] == runs[l]);
            }
            assert forall|k: int| 0 <= k < d.len() implies #[trigger] d[k].0.start_t
                <= d[k].0.end_t by {
                assert(d[k] == runs[k]);
            }
        }
        lemma_unlocked_blocks_in_order(d);
        let rest = unlocked_blocks(d);
        let u = unlocked_blocks(runs);
        let n = runs.len() - 1;
        assert(runs[n].0.start_t <= runs[n].0.end_t);
        if d.len() > 0 {
            assert(d.last() == runs[n - 1]);
            assert(runs[n - 1].0.end_t < runs[n].0.start_t);
            assert(runs[n - 1].0.start_t <= runs[n - 1].0.end_t);
        }
        assert forall|k: int| 0 <= k < u.len() implies #[trigger] u[k].end_t <= runs.last().0.end_t by {
            if k < rest.len() {
                assert(u[k] == rest[k]);
            }
        }
        assert forall|k: int, l: int| 0 <= k < l < u.len() implies #[trigger] u[k].end_t
            < #[trigger] u[l].start_t by {
            assert(u[k] == rest[k]);
            if l < rest.len() {
                assert(u[l] == rest[l]);
            }
        }
        assert forall|k: int| 0 <= k < u.len() implies #[trigger] u[k].start_t <= u[k].end_t by {
            if k < rest.len() {
                assert(u[k] == rest[k]);
            }
        }
    }
}

/// Spans in time order give blocks in time order: each block starts no later
/// than it ends, and ends before every later block starts.
pub proof fn lemma_focus_blocks_in_order(rows: Seq<RowView>)
    requires
        spans_in_order(rows),
    ensures
        blocks_in_order(focus_blocks(rows)),
{
    lemma_runs_of_in_order(rows);
    lemma_merge_all_in_order(runs_of(rows));
    lemma_unlocked_blocks_in_order(merge_all(runs_of(rows)));
}

// ---------- where blocks begin and end ----------

/// Some span of `b`'s app starts where `b` starts.
pub open spec fn starts_on_own_span(rows: Seq<RowView>, b: BlockView) -> bool {
    exists|k: int| 0 <= k < rows.len() && #[trigger] rows[k].app == b.app && rows[k].start_t == b.start_t
}

/// Some span of `b`'s app ends where `b` ends.
pub open spec fn ends_on_own_span(rows: Seq<RowView>, b: BlockView) -> bool {
    exists|k: int| 0 <= k < rows.len() && #[trigger] rows[k].app == b.app && rows[k].end_t == b.end_t
}

pub open spec fn runs_anchored(rows: Seq<RowView>, runs: Seq<RunView>) -> bool {
    forall|i: int|
        0 <= i < runs.len() ==> starts_on_own_span(rows, #[trigger] runs[i].0) && ends_on_own_span(
            rows,
            runs[i].0,
        )
}

proof fn lemma_anchor_grows(rows: Seq<RowView>, b: BlockView)
    requires
        rows.len() > 0,
        starts_on_own_span(rows.drop_last(), b) || ends_on_own_span(rows.drop_last(), b),
    ensures
        starts_on_own_span(rows.drop_last(), b) ==> starts_on_own_span(rows, b),
        ends_on_own_span(rows.drop_last(), b) ==> ends_on_own_span(rows, b),
{
    let d = rows.drop_last();
    if starts_on_own_span(d, b) {
        let k = choose|k: int| 0 <= k < d.len() && #[trigger] d[k].app == b.app && d[k].start_t == b.start_t;
        assert(rows[k] == d[k]);
    }
    if ends_on_own_span(d, b) {
        let k = choose|k: int| 0 <= k < d.len() && #[trigger] d[k].app == b.app && d[k].end_t == b.end_t;
        assert(rows[k] == d[k]);
    }
}

proof fn lemma_runs_of_anchored(rows: Seq<RowView>)
    ensures
        runs_anchored(rows, runs_of(rows)),
        rows.len() > 0 ==> runs_of(rows).len() > 0 && runs_of(rows).last().0.app == rows.last().app,
    decreases rows.len(),
{
    if rows.len() > 0 {
        let d = rows.drop_last();
        let n = rows.len() - 1;
        lemma_runs_of_anchored(d);
        let before = runs_of(d);
        let now = runs_of(rows);
        let r = rows.last();
        assert forall|i: int| 0 <= i < before.len() implies starts_on_own_span(rows, #[trigger] before[i].0)
            && ends_on_own_span(rows, before[i].0) by {
            lemma_anchor_grows(rows, before[i].0);
        }
        assert(rows[n].app == r.app && rows[n].start_t == r.start_t && rows[n].end_t == r.end_t);
        if rows.len() == 1 || splits(rows[rows.len() - 2], r) {
            assert(starts_on_own_span(rows, block_of_row(r)));
            assert(ends_on_own_span(rows, block_of_row(r)));
            assert forall|i: int| 0 <= i < now.len() implies starts_on_own_span(rows, #[trigger] now[i].0)
                && ends_on_own_span(rows, now[i].0) by {
                if i < before.len() {
                    assert(now[i] == before[i]);
                }
            }
        } else {
            let m = before.len() - 1;
            assert(d.last() == rows[n - 1]);
            let e = extend_block(before.last().0, r);
            assert(before[m] == before.last());
            assert(starts_on_own_span(rows, before[m].0));
            assert(e.app == r.app);
            assert(starts_on_own_span(rows, e));
            assert(ends_on_own_span(rows, e));
            assert forall|i: int| 0 <= i < now.len() implies starts_on_own_span(rows, #[trigger] now[i].0)
                && ends_on_own_span(rows, now[i].0) by {
                if i < m {
                    assert(now[i] == before[i]);
                }
            }
        }
    }
}

proof fn lemma_pass_anchored(rows: Seq<RowView>, runs: Seq<RunView>, out: Seq<RunView>, i: int)
    requires
        0 <= i <= runs.len(),
        runs_anchored(rows, runs),
        runs_anchored(rows, out),
    ensures
        runs_anchored(rows, pass_from(runs, out, i).0),
    decreases runs.len() - i,
{
    if i < runs.len() {
        if swallows(out, runs, i) {
            let a = out.last();
            let n = out.len() - 1;
            let joined = (join_blocks(a.0, runs[i].0, runs[i + 1].0), a.1);
            let out2 = out.drop_last().push(joined);
            assert(out[n] == a);
            assert(starts_on_own_span(rows, out[n].0));
            assert(ends_on_own_span(rows, runs[i + 1].0));
            assert(starts_on_own_span(rows, joined.0));
            assert(ends_on_own_span(rows, joined.0));
            assert forall|x: int| 0 <= x < out2.len() implies starts_on_own_span(rows, #[trigger] out2[x].0)
                && ends_on_own_span(rows, out2[x].0) by {
                if x < n {
                    assert(out2[x] == out[x]);
                }
            }
            lemma_pass_anchored(rows, runs, out2, i + 2);
        } else {
            let out2 = out.push(runs[i]);
            assert forall|x: int| 0 <= x < out2.len() implies starts_on_own_span(rows, #[trigger] out2[x].0)
                && ends_on_own_span(rows, out2[x].0) by {
                if x < out.len() {
                    assert(out2[x] == out[x]);
                }
            }
            lemma_pass_anchored(rows, runs, out2, i + 1);
        }
    }
}

proof fn lemma_merge_all_anchored(rows: Seq<RowView>, runs: Seq<RunView>)
    requires
        runs_anchored(rows, runs),
    ensures
        runs_anchored(rows, merge_all(runs)),
    decreases runs.len(),
{
    let p = pass_from(runs, Seq::empty(), 0);
    lemma_pass_anchored(rows, runs, Seq::empty(), 0);
    if p.1 {
        lemma_pass_len(runs, Seq::empty(), 0);
        lemma_merge_all_anchored(rows, p.0);
    }
}

proof fn lemma_unlocked_blocks_anchored(rows: Seq<RowView>, runs: Seq<RunView>)
    requires
        runs_anchored(rows, runs),
    ensures
        forall|k: int|
            0 <= k < unlocked_blocks(runs).len() ==> starts_on_own_span(
                rows,
                #[trigger] unlocked_blocks(runs)[k],
            ) && ends_on_own_span(rows, unlocked_blocks(runs)[k]),
    decreases runs.len(),
{
    if runs.len() > 0 {
        let d = runs.drop_last();
        assert forall|i: int| 0 <= i < d.len() implies starts_on_own_span(rows, #[trigger] d[i].0)
            && ends_on_own_span(rows, d[i].0) by {
            assert(d[i] == runs[i]);
        }
        lemma_unlocked_blocks_anchored(rows, d);
        let rest = unlocked_blocks(d);
        let u = unlocked_blocks(runs);
        assert(runs[runs.len() - 1] == runs.last());
        assert forall|k: int| 0 <= k < u.len() implies starts_on_own_span(rows, #[trigger] u[k])
            && ends_on_own_span(rows, u[k]) by {
            if k < rest.len() {
                assert(u[k] == rest[k]);
            }
        }
    }
}

/// A block is made of its own app's spans at both ends: every block starts
/// where a span of the block's app starts and ends where a span of the
/// block's app ends. A block never runs on into another app's spans; only a
/// visit between two runs of its own app is taken into it.
pub proof fn lemma_blocks_bounded_by_own_spans(rows: Seq<RowView>)
    ensures
        forall|j: int|
            0 <= j < focus_blocks(rows).len() ==> (exists|k: int|
                0 <= k < rows.len() && rows[k].app == (#[trigger] focus_blocks(rows)[j]).app
                    && rows[k].start_t == focus_blocks(rows)[j].start_t) && (exists|k: int|
                0 <= k < rows.len() && rows[k].app == focus_blocks(rows)[j].app && rows[k].end_t
                    == focus_blocks(rows)[j].end_t),
{
    lemma_runs_of_anchored(rows);
    lemma_merge_all_anchored(rows, runs_of(rows));
    lemma_unlocked_blocks_anchored(rows, merge_all(runs_of(rows)));
    assert forall|j: int| 0 <= j < focus_blocks(rows).len() implies (exists|k: int|
        0 <= k < rows.len() && rows[k].app == (#[trigger] focus_blocks(rows)[j]).app && rows[k].start_t
            == focus_blocks(rows)[j].start_t) && (exists|k: int|
        0 <= k < rows.len() && rows[k].app == focus_blocks(rows)[j].app && rows[k].end_t
            == focus_blocks(rows)[j].end_t) by {
        let b = focus_blocks(rows)[j];
        assert(starts_on_own_span(rows, b) && ends_on_own_span(rows, b));
    }
}

// ---------- what a block holds ----------

proof fn lemma_order_chain(rows: Seq<RowView>, k: int, m: int)
    requires
        spans_in_order(rows),
        0 <= k <= m < rows.len(),
    ensures
        rows[k].start_t <= rows[m].start_t,
        rows[k].end_t <= rows[m].end_t,
        rows[k].start_t <= rows[m].end_t,
        k < m ==> rows[k].end_t < rows[m].start_t,
    decreases m - k,
{
    assert(rows[m].start_t <= rows[m].end_t);
    assert(rows[k].start_t <= rows[k].end_t);
    if k < m {
        lemma_order_chain(rows, k, m - 1);
        assert(rows[m - 1].end_t < rows[m].start_t);
    }
}

proof fn lemma_in_order_prefix(rows: Seq<RowView>)
    requires
        spans_in_order(rows),
        rows.len() > 0,
    ensures
        spans_in_order(rows.drop_last()),
{
    let d = rows.drop_last();
    assert forall|k: int| 0 <= k < d.len() implies #[trigger] d[k].start_t <= d[k].end_t by {
        assert(d[k] == rows[k]);
    }
    assert forall|k: int| 0 <= k < d.len() - 1 implies #[trigger] d[k].end_t < d[k + 1].start_t by {
        assert(d[k] == rows[k] && d[k + 1] == rows[k + 1]);
    }
}

/// Run `run` is made of spans `lo` to `hi`: it starts and ends with them,
/// they share its lock state, those of another app are short visits, and
/// consecutive ones are close in time.
#[verifier::opaque]
pub open spec fn run_holds(rows: Seq<RowView>, run: RunView, lo: int, hi: int) -> bool {
    &&& 0 <= lo <= hi < rows.len()
    &&& run.0.start_t == rows[lo].start_t
    &&& run.0.end_t == rows[hi].end_t
    &&& forall|k: int|
        lo <= k <= hi ==> #[trigger] rows[k].locked == run.1 && (rows[k].app != run.0.app
            ==> row_len(rows[k]) <= FOCUS_GAP_TOLERANCE_S)
    &&& forall|k: int|
        #![trigger rows[k]]
        lo <= k < hi ==> rows[k + 1].start_t - rows[k].end_t <= FOCUS_GAP_TOLERANCE_S + SAMPLE_S * 2
}

/// Each run holds the spans of its bounds, and the bounds follow each other
/// from the first span on.
pub open spec fn runs_hold(rows: Seq<RowView>, runs: Seq<RunView>, bs: Seq<(int, int)>) -> bool {
    &&& bs.len() == runs.len()
    &&& forall|i: int| 0 <= i < runs.len() ==> run_holds(rows, #[trigger] runs[i], bs[i].0, bs[i].1)
    &&& bs.len() > 0 ==> bs[0].0 == 0
    &&& forall|i: int| 0 <= i < bs.len() - 1 ==> #[trigger] bs[i + 1].0 == bs[i].1 + 1
}

proof fn lemma_run_holds_grows(rows: Seq<RowView>, run: RunView, lo: int, hi: int)
    requires
        rows.len() > 0,
        run_holds(rows.drop_last(), run, lo, hi),
    ensures
        run_holds(rows, run, lo, hi),
{
    reveal(run_holds);
    let d = rows.drop_last();
    assert(rows[lo] == d[lo] && rows[hi] == d[hi]);
    assert forall|k: int| lo <= k <= hi implies #[trigger] rows[k].locked == run.1 && (rows[k].app
        != run.0.app ==> row_len(rows[k]) <= FOCUS_GAP_TOLERANCE_S) by {
        assert(rows[k] == d[k]);
    }
    assert forall|k: int| #![trigger rows[k]] lo <= k < hi implies rows[k + 1].start_t - rows[k].end_t
        <= FOCUS_GAP_TOLERANCE_S + SAMPLE_S * 2 by {
        assert(rows[k] == d[k] && rows[k + 1] == d[k + 1]);
        assert(d[k + 1].start_t - d[k].end_t <= FOCUS_GAP_TOLERANCE_S + SAMPLE_S * 2);
    }
}

proof fn lemma_runs_of_hold(rows: Seq<RowView>) -> (bs: Seq<(int, int)>)
    requires
        spans_in_order(rows),
    ensures
        runs_hold(rows, runs_of(rows), bs),
        rows.len() > 0 ==> bs.len() > 0 && bs.last().1 == rows.len() - 1,
    decreases rows.len(),
{
    reveal(run_holds);
    if rows.len() == 0 {
        Seq::empty()
    } else {
        let d = rows.drop_last();
        let n = rows.len() - 1;
        lemma_in_order_prefix(rows);
        let bd = lemma_runs_of_hold(d);
        lemma_runs_of_anchored(rows);
        lemma_runs_of_anchored(d);
        let before = runs_of(d);
        let now = runs_of(rows);
        let r = rows.last();
        assert(rows[n] == r);
        assert forall|i: int| 0 <= i < before.len() implies run_holds(rows, #[trigger] before[i], bd[i].0, bd[i].1) by {
            lemma_run_holds_grows(rows, before[i], bd[i].0, bd[i].1);
        }
        if rows.len() == 1 || splits(rows[rows.len() - 2], r) {
            let bs = bd.push((n, n));
            assert(run_holds(rows, (block_of_row(r), r.locked), n, n));
            assert forall|i: int| 0 <= i < now.len() implies run_holds(rows, #[trigger] now[i], bs[i].0, bs[i].1) by {
                if i < before.len() {
                    assert(now[i] == before[i] && bs[i] == bd[i]);
                }
            }
            assert forall|i: int| 0 <= i < bs.len() - 1 implies #[trigger] bs[i + 1].0 == bs[i].1 + 1 by {
                if i < bd.len() - 1 {
                    assert(bs[i + 1] == bd[i + 1] && bs[i] == bd[i]);
                } else {
                    assert(bs[i] == bd[i]);
                    assert(bd[i] == bd.last());
                }
            }
            if n > 0 {
                assert(bs[0] == bd[0]);
            }
            bs
        } else {
            let m = before.len() - 1;
            let lo = bd[m].0;
            let bs = bd.update(m, (lo, n));
            assert(bd[m] == bd.last());
            assert(before[m] == before.last());
            assert(d.last() == rows[n - 1]);
            let e = (extend_block(before.last().0, r), before.last().1);
            assert(run_holds(rows, before[m], lo, n - 1));
            assert(run_holds(rows, e, lo, n)) by {
                assert forall|k: int| lo <= k <= n implies #[trigger] rows[k].locked == e.1 && (rows[k].app
                    != e.0.app ==> row_len(rows[k]) <= FOCUS_GAP_TOLERANCE_S) by {
                    if k < n {
                        assert(rows[k].locked == before[m].1);
                    }
                }
                assert forall|k: int| #![trigger rows[k]] lo <= k < n implies rows[k + 1].start_t
                    - rows[k].end_t <= FOCUS_GAP_TOLERANCE_S + SAMPLE_S * 2 by {
                    if k < n - 1 {
                        assert(rows[k + 1].start_t - rows[k].end_t <= FOCUS_GAP_TOLERANCE_S + SAMPLE_S * 2);
                    }
                }
            }
            assert forall|i: int| 0 <= i < now.len() implies run_holds(rows, #[trigger] now[i], bs[i].0, bs[i].1) by {
                if i < m {
                    assert(now[i] == before[i] && bs[i] == bd[i]);
                }
            }
            assert forall|i: int| 0 <= i < bs.len() - 1 implies #[trigger] bs[i + 1].0 == bs[i].1 + 1 by {
                assert(bs[i] == bd[i]);
                if i + 1 < m {
                    assert(bs[i + 1] == bd[i + 1]);
                }
            }
            if m > 0 {
                assert(bs[0] == bd[0]);
            }
            bs
        }
    }
}

proof fn lemma_join_holds(
    rows: Seq<RowView>,
    a: RunView,
    v: RunView,
    nx: RunView,
    l1: int,
    h1: int,
    h2: int,
    h3: int,
)
    requires
        spans_in_order(rows),
        run_holds(rows, a, l1, h1),
        run_holds(rows, v, h1 + 1, h2),
        run_holds(rows, nx, h2 + 1, h3),
        !a.1,
        !v.1,
        !nx.1,
        block_len(v.0) <= FOCUS_GAP_TOLERANCE_S,
        a.0.app == nx.0.app,
        nx.0.start_t - a.0.end_t <= FOCUS_GAP_TOLERANCE_S + SAMPLE_S * 2,
    ensures
        run_holds(rows, (join_blocks(a.0, v.0, nx.0), a.1), l1, h3),
{
    reveal(run_holds);
    let joined = (join_blocks(a.0, v.0, nx.0), a.1);
    let l2 = h1 + 1;
    let l3 = h2 + 1;
    lemma_order_chain(rows, h1, l2);
    lemma_order_chain(rows, l2, h2);
    lemma_order_chain(rows, h2, l3);
    assert forall|k: int| l1 <= k <= h3 implies #[trigger] rows[k].locked == joined.1 && (
    rows[k].app != joined.0.app ==> row_len(rows[k]) <= FOCUS_GAP_TOLERANCE_S) by {
        if k <= h1 {
        } else if k <= h2 {
            lemma_order_chain(rows, l2, k);
            lemma_order_chain(rows, k, h2);
        } else {
        }
    }
    assert forall|k: int| #![trigger rows[k]] l1 <= k < h3 implies rows[k + 1].start_t
        - rows[k].end_t <= FOCUS_GAP_TOLERANCE_S + SAMPLE_S * 2 by {
        if k < h1 {
            assert(rows[k + 1].start_t - rows[k].end_t <= FOCUS_GAP_TOLERANCE_S + SAMPLE_S * 2);
        } else if k == h1 {
        } else if k < h2 {
            assert(rows[k + 1].start_t - rows[k].end_t <= FOCUS_GAP_TOLERANCE_S + SAMPLE_S * 2);
        } else if k == h2 {
        } else {
            assert(rows[k + 1].start_t - rows[k].end_t <= FOCUS_GAP_TOLERANCE_S + SAMPLE_S * 2);
        }
    }
}

proof fn lemma_hold_push(rows: Seq<RowView>, out: Seq<RunView>, ob: Seq<(int, int)>, run: RunView, lo: int, hi: int)
    requires
        runs_hold(rows, out, ob),
        run_holds(rows, run, lo, hi),
        lo == (if out.len() == 0 {
            0
        } else {
            ob.last().1 + 1
        }),
    ensures
        runs_hold(rows, out.push(run), ob.push((lo, hi))),
{
    let out2 = out.push(run);
    let ob2 = ob.push((lo, hi));
    assert forall|x: int| 0 <= x < out2.len() implies run_holds(rows, #[trigger] out2[x], ob2[x].0, ob2[x].1) by {
        if x < out.len() {
            assert(out2[x] == out[x] && ob2[x] == ob[x]);
        }
    }
    assert forall|x: int| 0 <= x < ob2.len() - 1 implies #[trigger] ob2[x + 1].0 == ob2[x].1 + 1 by {
        assert(ob2[x] == ob[x]);
        if x + 1 < ob.len() {
            assert(ob2[x + 1] == ob[x + 1]);
        } else {
            assert(ob[x] == ob.last());
        }
    }
    if ob.len() > 0 {
        assert(ob2[0] == ob[0]);
    }
}

proof fn lemma_pass_holds(
    rows: Seq<RowView>,
    runs: Seq<RunView>,
    rb: Seq<(int, int)>,
    out: Seq<RunView>,
    ob: Seq<(int, int)>,
    i: int,
) -> (b2: Seq<(int, int)>)
    requires
        spans_in_order(rows),
        0 <= i <= runs.len(),
        runs_hold(rows, runs, rb),
        runs_hold(rows, out, ob),
        i < runs.len() ==> rb[i].0 == (if out.len() == 0 {
            0
        } else {
            ob.last().1 + 1
        }),
    ensures
        runs_hold(rows, pass_from(runs, out, i).0, b2),
    decreases runs.len() - i,
{
    if i >= runs.len() {
        ob
    } else if swallows(out, runs, i) {
        let a = out.last();
        let n = out.len() - 1;
        let d = out.drop_last();
        let db = ob.drop_last();
        let l1 = ob[n].0;
        let h1 = ob[n].1;
        let h2 = rb[i].1;
        let h3 = rb[i + 1].1;
        assert(out[n] == a && ob[n] == ob.last());
        assert(run_holds(rows, runs[i], rb[i].0, h2));
        assert(run_holds(rows, runs[i + 1], rb[i + 1].0, h3));
        assert(rb[i + 1].0 == h2 + 1);
        lemma_join_holds(rows, a, runs[i], runs[i + 1], l1, h1, h2, h3);
        let joined = (join_blocks(a.0, runs[i].0, runs[i + 1].0), a.1);
        assert(runs_hold(rows, d, db)) by {
            assert forall|x: int| 0 <= x < d.len() implies run_holds(rows, #[trigger] d[x], db[x].0, db[x].1) by {
                assert(d[x] == out[x] && db[x] == ob[x]);
            }
            assert forall|x: int| 0 <= x < db.len() - 1 implies #[trigger] db[x + 1].0 == db[x].1 + 1 by {
                assert(db[x] == ob[x] && db[x + 1] == ob[x + 1]);
            }
            if db.len() > 0 {
                assert(db[0] == ob[0]);
            }
        }
        if n > 0 {
            assert(db.last() == ob[n - 1]);
            let x = n - 1;
            assert(ob[x + 1].0 == ob[x].1 + 1);
        }
        lemma_hold_push(rows, d, db, joined, l1, h3);
        if i + 2 < runs.len() {
            let x = i + 1;
            assert(rb[x + 1].0 == rb[x].1 + 1);
        }
        lemma_pass_holds(rows, runs, rb, d.push(joined), db.push((l1, h3)), i + 2)
    } else {
        assert(run_holds(rows, runs[i], rb[i].0, rb[i].1));
        lemma_hold_push(rows, out, ob, runs[i], rb[i].0, rb[i].1);
        if i + 1 < runs.len() {
            assert(rb[i + 1].0 == rb[i].1 + 1);
        }
        lemma_pass_holds(rows, runs, rb, out.push(runs[i]), ob.push(rb[i]), i + 1)
    }
}

proof fn lemma_merge_all_holds(rows: Seq<RowView>, runs: Seq<RunView>, rb: Seq<(int, int)>) -> (b2: Seq<
    (int, int),
>)
    requires
        spans_in_order(rows),
        runs_hold(rows, runs, rb),
    ensures
        runs_hold(rows, merge_all(runs), b2),
    decreases runs.len(),
{
    let p = pass_from(runs, Seq::empty(), 0);
    let pb = lemma_pass_holds(rows, runs, rb, Seq::empty(), Seq::empty(), 0);
    if p.1 {
        lemma_pass_len(runs, Seq::empty(), 0);
        lemma_merge_all_holds(rows, p.0, pb)
    } else {
        pb
    }
}

proof fn lemma_unlocked_blocks_hold(rows: Seq<RowView>, runs: Seq<RunView>, rb: Seq<(int, int)>)
    requires
        rb.len() == runs.len(),
        forall|i: int| 0 <= i < runs.len() ==> run_holds(rows, #[trigger] runs[i], rb[i].0, rb[i].1),
    ensures
        forall|j: int|
            0 <= j < unlocked_blocks(runs).len() ==> exists|lo: int, hi: int|
                run_holds(rows, (#[trigger] unlocked_blocks(runs)[j], false), lo, hi),
    decreases runs.len(),
{
    if runs.len() > 0 {
        let d = runs.drop_last();
        let db = rb.drop_last();
        assert forall|i: int| 0 <= i < d.len() implies run_holds(rows, #[trigger] d[i], db[i].0, db[i].1) by {
            assert(d[i] == runs[i] && db[i] == rb[i]);
        }
        lemma_unlocked_blocks_hold(rows, d, db);
        let rest = unlocked_blocks(d);
        let u = unlocked_blocks(runs);
        let n = runs.len() - 1;
        assert(runs[n] == runs.last());
        assert forall|j: int| 0 <= j < u.len() implies exists|lo: int, hi: int|
            run_holds(rows, (#[trigger] u[j], false), lo, hi) by {
            if j < rest.len() {
                assert(u[j] == rest[j]);
            } else {
                assert(u[j] == runs[n].0 && !runs[n].1);
                assert((u[j], false) == runs[n]);
                assert(run_holds(rows, (u[j], false), rb[n].0, rb[n].1));
            }
        }
    }
}

/// What a block holds, for spans in time order. Every span that lies within
/// a block's time is unlocked; one of another app is a visit no longer than
/// `FOCUS_GAP_TOLERANCE_S`; and two consecutive spans within a block are
/// never further apart than a swallowed visit allows
/// (`FOCUS_GAP_TOLERANCE_S + 2 * SAMPLE_S`).
pub proof fn lemma_blocks_hold_short_visits(rows: Seq<RowView>)
    requires
        spans_in_order(rows),
    ensures
        forall|j: int, k: int|
            0 <= j < focus_blocks(rows).len() && 0 <= k < rows.len() && (#[trigger] focus_blocks(
                rows,
            )[j]).start_t <= (#[trigger] rows[k]).start_t && rows[k].end_t
                <= focus_blocks(rows)[j].end_t ==> !rows[k].locked && (rows[k].app
                != focus_blocks(rows)[j].app ==> row_len(rows[k]) <= FOCUS_GAP_TOLERANCE_S),
        forall|j: int, k: int|
            0 <= j < focus_blocks(rows).len() && 0 <= k < rows.len() - 1 && (#[trigger] focus_blocks(
                rows,
            )[j]).start_t <= (#[trigger] rows[k]).start_t && rows[k + 1].end_t
                <= focus_blocks(rows)[j].end_t ==> rows[k + 1].start_t - rows[k].end_t
                <= FOCUS_GAP_TOLERANCE_S + SAMPLE_S * 2,
{
    let rb = lemma_runs_of_hold(rows);
    let mb = lemma_merge_all_holds(rows, runs_of(rows), rb);
    lemma_unlocked_blocks_hold(rows, merge_all(runs_of(rows)), mb);
    let bl = focus_blocks(rows);
    assert forall|j: int, k: int|
        0 <= j < bl.len() && 0 <= k < rows.len() && (#[trigger] bl[j]).start_t <= (#[trigger] rows[k]).start_t
            && rows[k].end_t <= bl[j].end_t implies !rows[k].locked && (rows[k].app != bl[j].app
            ==> row_len(rows[k]) <= FOCUS_GAP_TOLERANCE_S) by {
        let (lo, hi) = choose|lo: int, hi: int| run_holds(rows, (bl[j], false), lo, hi);
        lemma_block_span(rows, bl[j], lo, hi, k);
    }
    assert forall|j: int, k: int|
        0 <= j < bl.len() && 0 <= k < rows.len() - 1 && (#[trigger] bl[j]).start_t <= (#[trigger] rows[k]).start_t
            && rows[k + 1].end_t <= bl[j].end_t implies rows[k + 1].start_t - rows[k].end_t
            <= FOCUS_GAP_TOLERANCE_S + SAMPLE_S * 2 by {
        let (lo, hi) = choose|lo: int, hi: int| run_holds(rows, (bl[j], false), lo, hi);
        lemma_block_gap(rows, bl[j], lo, hi, k);
    }
}

proof fn lemma_block_span(rows: Seq<RowView>, b: BlockView, lo: int, hi: int, k: int)
    requires
        spans_in_order(rows),
        run_holds(rows, (b, false), lo, hi),
        0 <= k < rows.len(),
        b.start_t <= rows[k].start_t,
        rows[k].end_t <= b.end_t,
    ensures
        !rows[k].locked,
        rows[k].app != b.app ==> row_len(rows[k]) <= FOCUS_GAP_TOLERANCE_S,
{
    reveal(run_holds);
    lemma_span_within(rows, lo, hi, k);
    assert(rows[k].locked == false);
}

proof fn lemma_block_gap(rows: Seq<RowView>, b: BlockView, lo: int, hi: int, k: int)
    requires
        spans_in_order(rows),
        run_holds(rows, (b, false), lo, hi),
        0 <= k < rows.len() - 1,
        b.start_t <= rows[k].start_t,
        rows[k + 1].end_t <= b.end_t,
    ensures
        rows[k + 1].start_t - rows[k].end_t <= FOCUS_GAP_TOLERANCE_S + SAMPLE_S * 2,
{
    reveal(run_holds);
    lemma_order_chain(rows, k, k + 1);
    lemma_span_within(rows, lo, hi, k);
    lemma_span_within(rows, lo, hi, k + 1);
}

/// A span that lies between the start of span `lo` and the end of span `hi`
/// is one of the spans from `lo` to `hi`.
proof fn lemma_span_within(rows: Seq<RowView>, lo: int, hi: int, k: int)
    requires
        spans_in_order(rows),
        0 <= lo <= hi < rows.len(),
        0 <= k < rows.len(),
        rows[lo].start_t <= rows[k].start_t,
        rows[k].end_t <= rows[hi].end_t,
    ensures
        lo <= k <= hi,
{
    assert(rows[k].start_t <= rows[k].end_t);
    if k < lo {
        lemma_order_chain(rows, k, lo);
    }
    if k > hi {
        lemma_order_chain(rows, hi, k);
    }
}

} // verus!
