//! Totals of focus blocks: per local day (time and number of blocks, days in
//! the order they first appear) and per app (time, longest first).

use vstd::prelude::*;
use crate::clock::{mmdd, mmdd_text};
use crate::focus::{
    Block, BlockView, block_len, blocks_view, add_title, add_title_time, add_title_fits, titles_view,
    fits_i64, len_fits, distinct_titles, lemma_add_title_at, lemma_add_title_new,
};

verus! {

// ---------- per day ----------

pub type DayTotal = (Seq<char>, int, int);

/// Adds a block of `n` seconds to day `d`: to its entry, or as a new entry.
pub open spec fn add_day(ds: Seq<DayTotal>, d: Seq<char>, n: int) -> Seq<DayTotal>
    decreases ds.len(),
{
    if ds.len() == 0 {
        seq![(d, n, 1)]
    } else if ds[0].0 == d {
        ds.update(0, (d, ds[0].1 + n, ds[0].2 + 1))
    } else {
        seq![ds[0]] + add_day(ds.drop_first(), d, n)
    }
}

/// Focus time and number of blocks per local day (`MM-DD`), days in the
/// order they first appear.
pub open spec fn days_of(bs: Seq<BlockView>, offset: int) -> Seq<DayTotal>
    decreases bs.len(),
{
    if bs.len() == 0 {
        Seq::empty()
    } else {
        let b = bs.last();
        add_day(days_of(bs.drop_last(), offset), mmdd_text(b.start_t, offset), block_len(b))
    }
}

/// Adding a block of `n` seconds to day `d` keeps its time and count within `i64`.
pub open spec fn add_day_fits(ds: Seq<DayTotal>, d: Seq<char>, n: int) -> bool
    decreases ds.len(),
{
    if ds.len() == 0 {
        true
    } else if ds[0].0 == d {
        fits_i64(ds[0].1 + n) && fits_i64(ds[0].2 + 1)
    } else {
        add_day_fits(ds.drop_first(), d, n)
    }
}

/// The per-day totals stay within `i64`: each block's length and local day
/// can be computed, and every sum and count fits.
pub open spec fn days_fit(bs: Seq<BlockView>, offset: int) -> bool
    decreases bs.len(),
{
    if bs.len() == 0 {
        true
    } else {
        let b = bs.last();
        &&& days_fit(bs.drop_last(), offset)
        &&& len_fits(b)
        &&& fits_i64(b.start_t + offset)
        &&& add_day_fits(days_of(bs.drop_last(), offset), mmdd_text(b.start_t, offset), block_len(b))
    }
}

proof fn lemma_add_day_at(ds: Seq<DayTotal>, d: Seq<char>, n: int, j: int)
    requires
        0 <= j < ds.len(),
        ds[j].0 == d,
        forall|k: int| 0 <= k < j ==> ds[k].0 != d,
    ensures
        add_day(ds, d, n) == ds.update(j, (d, ds[j].1 + n, ds[j].2 + 1)),
        add_day_fits(ds, d, n) == (fits_i64(ds[j].1 + n) && fits_i64(ds[j].2 + 1)),
    decreases ds.len(),
{
    if j > 0 {
        lemma_add_day_at(ds.drop_first(), d, n, j - 1);
        assert(add_day(ds, d, n) =~= ds.update(j, (d, ds[j].1 + n, ds[j].2 + 1)));
    }
}

proof fn lemma_add_day_new(ds: Seq<DayTotal>, d: Seq<char>, n: int)
    requires
        forall|k: int| 0 <= k < ds.len() ==> ds[k].0 != d,
    ensures
        add_day(ds, d, n) == ds.push((d, n, 1)),
        add_day_fits(ds, d, n),
    decreases ds.len(),
{
    if ds.len() > 0 {
        lemma_add_day_new(ds.drop_first(), d, n);
        assert(add_day(ds, d, n) =~= ds.push((d, n, 1)));
    }
}

pub open spec fn days_view(v: Seq<(String, i64, i64)>) -> Seq<DayTotal> {
    v.map_values(|p: (String, i64, i64)| (p.0@, p.1 as int, p.2 as int))
}

fn add_day_time(days: &mut Vec<(String, i64, i64)>, d: String, n: i64) -> (ok: bool)
    ensures
        ok == add_day_fits(days_view(old(days)@), d@, n as int),
        ok ==> days_view(final(days)@) == add_day(days_view(old(days)@), d@, n as int),
{
    let ghost ds = days_view(days@);
    let len = days.len();
    let mut j: usize = 0;
    while j < len && days[j].0 != d
        invariant
            len == days@.len(),
            j <= len,
            ds == days_view(days@),
            forall|k: int| 0 <= k < j ==> ds[k].0 != d@,
        decreases len - j,
    {
        assert(ds[j as int].0 == days@[j as int].0@);
        j = j + 1;
    }
    if j < len {
        proof {
            assert(ds[j as int].0 == days@[j as int].0@);
            lemma_add_day_at(ds, d@, n as int, j as int);
        }
        let s: i128 = days[j].1 as i128 + n as i128;
        let c: i128 = days[j].2 as i128 + 1;
        if s < i64::MIN as i128 || s > i64::MAX as i128 || c > i64::MAX as i128 {
            return false;
        }
        let name = days[j].0.clone();
        days.set(j, (name, s as i64, c as i64));
        assert forall|k: int| 0 <= k < len implies #[trigger] days_view(days@)[k] == ds.update(
            j as int,
            (d@, ds[j as int].1 + n, ds[j as int].2 + 1),
        )[k] by {
            if k != j {
                assert(days@[k] == old(days)@[k]);
            }
        }
        assert(days_view(days@) =~= ds.update(j as int, (d@, ds[j as int].1 + n, ds[j as int].2 + 1)));
    } else {
        proof {
            lemma_add_day_new(ds, d@, n as int);
        }
        let ghost before = days@;
        let ghost dv = d@;
        days.push((d, n, 1));
        assert forall|k: int| 0 <= k < len + 1 implies #[trigger] days_view(days@)[k] == ds.push(
            (dv, n as int, 1),
        )[k] by {
            if k < len {
                assert(days@[k] == before[k]);
            }
        }
        assert(days_view(days@) =~= ds.push((dv, n as int, 1)));
    }
    true
}

/// Focus time and number of blocks per local day, in order of first
/// appearance; `None` when a length, a day or a sum leaves `i64`.
pub fn focus_by_day(blocks: &Vec<Block>, offset: i64) -> (res: Option<Vec<(String, i64, i64)>>)
    ensures
        res is Some <==> days_fit(blocks_view(blocks@), offset as int),
        res matches Some(days) ==> days_view(days@) == days_of(blocks_view(blocks@), offset as int),
{
    let ghost bv = blocks_view(blocks@);
    let mut days: Vec<(String, i64, i64)> = Vec::new();
    let mut i: usize = 0;
    assert(bv.take(0) =~= Seq::<BlockView>::empty());
    assert(days_view(days@) =~= Seq::<DayTotal>::empty());
    while i < blocks.len()
        invariant
            i <= blocks.len(),
            bv == blocks_view(blocks@),
            days_fit(bv.take(i as int), offset as int),
            days_view(days@) == days_of(bv.take(i as int), offset as int),
        decreases blocks.len() - i,
    {
        let ghost pre = bv.take(i + 1);
        proof {
            assert(pre.drop_last() =~= bv.take(i as int));
            assert(pre.last() == blocks@[i as int]@);
            if days_fit(bv, offset as int) {
                lemma_days_fit_prefix(bv, offset as int, i + 1);
            }
        }
        let b = &blocks[i];
        let d: i128 = b.end_t as i128 - b.start_t as i128;
        let l: i128 = d + 5;
        let at: i128 = b.start_t as i128 + offset as i128;
        if d < i64::MIN as i128 || d > i64::MAX as i128 || l > i64::MAX as i128 || at
            < i64::MIN as i128 || at > i64::MAX as i128 {
            return None;
        }
        let day = mmdd(b.start_t, offset);
        let n = b.len_s();
        if !add_day_time(&mut days, day, n) {
            return None;
        }
        assert(days_fit(pre, offset as int));
        i = i + 1;
    }
    assert(bv.take(blocks.len() as int) =~= bv);
    Some(days)
}

proof fn lemma_days_fit_prefix(bs: Seq<BlockView>, offset: int, k: int)
    requires
        0 <= k <= bs.len(),
        days_fit(bs, offset),
    ensures
        days_fit(bs.take(k), offset),
    decreases bs.len() - k,
{
    if k < bs.len() {
        lemma_days_fit_prefix(bs, offset, k + 1);
        assert(bs.take(k + 1).drop_last() =~= bs.take(k));
    } else {
        assert(bs.take(k) =~= bs);
    }
}

// ---------- per app ----------

/// Focus time per app, apps in the order they first appear.
pub open spec fn apps_of(bs: Seq<BlockView>) -> Seq<(Seq<char>, int)>
    decreases bs.len(),
{
    if bs.len() == 0 {
        Seq::empty()
    } else {
        add_title(apps_of(bs.drop_last()), bs.last().app, block_len(bs.last()))
    }
}

/// `x` placed after every entry of `sorted` with at least its time.
pub open spec fn insert_desc(sorted: Seq<(Seq<char>, int)>, x: (Seq<char>, int)) -> Seq<
    (Seq<char>, int),
>
    decreases sorted.len(),
{
    if sorted.len() == 0 {
        seq![x]
    } else if sorted[0].1 < x.1 {
        seq![x] + sorted
    } else {
        seq![sorted[0]] + insert_desc(sorted.drop_first(), x)
    }
}

/// Entries ordered by time, longest first; entries with equal times keep
/// their order (a stable sort).
pub open spec fn sort_desc(s: Seq<(Seq<char>, int)>) -> Seq<(Seq<char>, int)>
    decreases s.len(),
{
    if s.len() == 0 {
        Seq::empty()
    } else {
        insert_desc(sort_desc(s.drop_last()), s.last())
    }
}

/// Focus time per app, longest first.
pub open spec fn apps_ranked(bs: Seq<BlockView>) -> Seq<(Seq<char>, int)> {
    sort_desc(apps_of(bs))
}

/// The per-app totals stay within `i64`: each block's length can be
/// computed and every sum fits.
pub open spec fn apps_fit(bs: Seq<BlockView>) -> bool
    decreases bs.len(),
{
    if bs.len() == 0 {
        true
    } else {
        let b = bs.last();
        &&& apps_fit(bs.drop_last())
        &&& len_fits(b)
        &&& add_title_fits(apps_of(bs.drop_last()), b.app, block_len(b))
    }
}

proof fn lemma_apps_fit_prefix(bs: Seq<BlockView>, k: int)
    requires
        0 <= k <= bs.len(),
        apps_fit(bs),
    ensures
        apps_fit(bs.take(k)),
    decreases bs.len() - k,
{
    if k < bs.len() {
        lemma_apps_fit_prefix(bs, k + 1);
        assert(bs.take(k + 1).drop_last() =~= bs.take(k));
    } else {
        assert(bs.take(k) =~= bs);
    }
}

proof fn lemma_insert_desc_at(s: Seq<(Seq<char>, int)>, x: (Seq<char>, int), p: int)
    requires
        0 <= p <= s.len(),
        forall|k: int| 0 <= k < p ==> s[k].1 >= x.1,
        p < s.len() ==> s[p].1 < x.1,
    ensures
        insert_desc(s, x) == s.insert(p, x),
    decreases s.len(),
{
    if s.len() > 0 && p > 0 {
        lemma_insert_desc_at(s.drop_first(), x, p - 1);
        assert(insert_desc(s, x) =~= s.insert(p, x));
    } else if s.len() > 0 {
        assert(insert_desc(s, x) =~= s.insert(p, x));
    } else {
        assert(insert_desc(s, x) =~= s.insert(p, x));
    }
}

fn rank_apps(apps: Vec<(String, i64)>) -> (r: Vec<(String, i64)>)
    ensures
        titles_view(r@) == sort_desc(titles_view(apps@)),
{
    let ghost av = titles_view(apps@);
    let mut sorted: Vec<(String, i64)> = Vec::new();
    let mut i: usize = 0;
    assert(av.take(0) =~= Seq::<(Seq<char>, int)>::empty());
    assert(titles_view(sorted@) =~= Seq::<(Seq<char>, int)>::empty());
    while i < apps.len()
        invariant
            i <= apps.len(),
            av == titles_view(apps@),
            titles_view(sorted@) == sort_desc(av.take(i as int)),
        decreases apps.len() - i,
    {
        let ghost sv = titles_view(sorted@);
        let ghost x = av[i as int];
        assert(av.take(i + 1).drop_last() =~= av.take(i as int));
        assert(x == (apps@[i as int].0@, apps@[i as int].1 as int));
        let key = apps[i].1;
        let mut p: usize = 0;
        while p < sorted.len() && sorted[p].1 >= key
            invariant
                p <= sorted.len(),
                sv == titles_view(sorted@),
                key == x.1,
                forall|k: int| 0 <= k < p ==> sv[k].1 >= x.1,
            decreases sorted.len() - p,
        {
            assert(sv[p as int].1 == sorted@[p as int].1);
            p = p + 1;
        }
        proof {
            if p < sorted.len() {
                assert(sv[p as int].1 == sorted@[p as int].1);
            }
            lemma_insert_desc_at(sv, x, p as int);
        }
        let name = apps[i].0.clone();
        let ghost before = sorted@;
        sorted.insert(p, (name, key));
        assert forall|k: int| 0 <= k < sorted@.len() implies #[trigger] titles_view(sorted@)[k]
            == sv.insert(p as int, x)[k] by {
            if k < p {
                assert(sorted@[k] == before[k]);
            } else if k > p {
                assert(sorted@[k] == before[k - 1]);
            }
        }
        assert(titles_view(sorted@) =~= sv.insert(p as int, x));
        i = i + 1;
    }
    assert(av.take(apps.len() as int) =~= av);
    sorted
}

/// Focus time per app, longest first (apps with equal time in order of first
/// appearance); `None` when a length or a sum leaves `i64`.
pub fn focus_by_app(blocks: &Vec<Block>) -> (res: Option<Vec<(String, i64)>>)
    ensures
        res is Some <==> apps_fit(blocks_view(blocks@)),
        res matches Some(apps) ==> titles_view(apps@) == apps_ranked(blocks_view(blocks@)),
{
    let ghost bv = blocks_view(blocks@);
    let mut apps: Vec<(String, i64)> = Vec::new();
    let mut i: usize = 0;
    assert(bv.take(0) =~= Seq::<BlockView>::empty());
    assert(titles_view(apps@) =~= Seq::<(Seq<char>, int)>::empty());
    while i < blocks.len()
        invariant
            i <= blocks.len(),
            bv == blocks_view(blocks@),
            apps_fit(bv.take(i as int)),
            titles_view(apps@) == apps_of(bv.take(i as int)),
        decreases blocks.len() - i,
    {
        let ghost pre = bv.take(i + 1);
        proof {
            assert(pre.drop_last() =~= bv.take(i as int));
            assert(pre.last() == blocks@[i as int]@);
            if apps_fit(bv) {
                lemma_apps_fit_prefix(bv, i + 1);
            }
        }
        let b = &blocks[i];
        let d: i128 = b.end_t as i128 - b.start_t as i128;
        let l: i128 = d + 5;
        if d < i64::MIN as i128 || d > i64::MAX as i128 || l > i64::MAX as i128 {
            return None;
        }
        let n = b.len_s();
        if !add_title_time(&mut apps, &b.app, n) {
            return None;
        }
        assert(apps_fit(pre));
        i = i + 1;
    }
    assert(bv.take(blocks.len() as int) =~= bv);
    Some(rank_apps(apps))
}

// ---------- laws ----------

/// Entries ordered by time, longest first.
pub open spec fn sorted_desc(s: Seq<(Seq<char>, int)>) -> bool {
    forall|i: int, j: int| 0 <= i < j < s.len() ==> #[trigger] s[i].1 >= #[trigger] s[j].1
}

/// Where `insert_desc` puts `x`: after every entry with at least its time.
pub open spec fn desc_pos(s: Seq<(Seq<char>, int)>, x: (Seq<char>, int)) -> int
    decreases s.len(),
{
    if s.len() == 0 {
        0
    } else if s[0].1 < x.1 {
        0
    } else {
        1 + desc_pos(s.drop_first(), x)
    }
}

proof fn lemma_desc_pos(s: Seq<(Seq<char>, int)>, x: (Seq<char>, int))
    ensures
        0 <= desc_pos(s, x) <= s.len(),
        insert_desc(s, x) == s.insert(desc_pos(s, x), x),
        forall|k: int| 0 <= k < desc_pos(s, x) ==> #[trigger] s[k].1 >= x.1,
        desc_pos(s, x) < s.len() ==> s[desc_pos(s, x)].1 < x.1,
    decreases s.len(),
{
    if s.len() > 0 {
        if s[0].1 < x.1 {
            assert(insert_desc(s, x) =~= s.insert(0, x));
        } else {
            let rest = s.drop_first();
            lemma_desc_pos(rest, x);
            assert(insert_desc(s, x) =~= s.insert(desc_pos(s, x), x));
            assert forall|k: int| 0 <= k < desc_pos(s, x) implies #[trigger] s[k].1 >= x.1 by {
                if k > 0 {
                    assert(s[k] == rest[k - 1]);
                }
            }
        }
    } else {
        assert(insert_desc(s, x) =~= s.insert(0, x));
    }
}

proof fn lemma_insert_desc_sorted(s: Seq<(Seq<char>, int)>, x: (Seq<char>, int))
    requires
        sorted_desc(s),
    ensures
        sorted_desc(insert_desc(s, x)),
        insert_desc(s, x).to_multiset() == s.to_multiset().insert(x),
{
    broadcast use vstd::seq_lib::group_to_multiset_ensures;

    lemma_desc_pos(s, x);
    let p = desc_pos(s, x);
    let r = s.insert(p, x);
    assert forall|i: int, j: int| 0 <= i < j < r.len() implies #[trigger] r[i].1 >= #[trigger] r[j].1 by {
        if j < p {
            assert(r[i] == s[i] && r[j] == s[j]);
        } else if j == p {
            assert(r[i] == s[i]);
        } else if i == p {
            assert(r[j] == s[j - 1]);
            assert(s[p].1 < x.1);
            assert(s[p].1 >= s[j - 1].1 || j - 1 == p);
        } else if i < p {
            assert(r[i] == s[i] && r[j] == s[j - 1]);
        } else {
            assert(r[i] == s[i - 1] && r[j] == s[j - 1]);
        }
    }
}

/// Ranking by time orders entries longest first and keeps every entry.
pub proof fn lemma_sort_desc(s: Seq<(Seq<char>, int)>)
    ensures
        sorted_desc(sort_desc(s)),
        sort_desc(s).to_multiset() == s.to_multiset(),
    decreases s.len(),
{
    broadcast use vstd::seq_lib::group_to_multiset_ensures;

    if s.len() > 0 {
        lemma_sort_desc(s.drop_last());
        lemma_insert_desc_sorted(sort_desc(s.drop_last()), s.last());
        assert(s.drop_last().push(s.last()) =~= s);
    } else {
        assert(sort_desc(s).to_multiset() =~= s.to_multiset());
    }
}

/// The sum of the times of a list.
pub open spec fn times_sum(ts: Seq<(Seq<char>, int)>) -> int
    decreases ts.len(),
{
    if ts.len() == 0 {
        0
    } else {
        ts[0].1 + times_sum(ts.drop_first())
    }
}

/// The sum of the lengths of blocks.
pub open spec fn blocks_len_sum(bs: Seq<BlockView>) -> int
    decreases bs.len(),
{
    if bs.len() == 0 {
        0
    } else {
        blocks_len_sum(bs.drop_last()) + block_len(bs.last())
    }
}

proof fn lemma_add_title_sum(ts: Seq<(Seq<char>, int)>, t: Seq<char>, n: int)
    ensures
        times_sum(add_title(ts, t, n)) == times_sum(ts) + n,
    decreases ts.len(),
{
    if ts.len() == 0 {
        assert(add_title(ts, t, n).drop_first() =~= Seq::<(Seq<char>, int)>::empty());
        assert(times_sum(Seq::<(Seq<char>, int)>::empty()) == 0);
    } else if ts[0].0 == t {
        assert(add_title(ts, t, n).drop_first() =~= ts.drop_first());
    } else {
        lemma_add_title_sum(ts.drop_first(), t, n);
        assert(add_title(ts, t, n).drop_first() =~= add_title(ts.drop_first(), t, n));
    }
}

proof fn lemma_insert_desc_sum(s: Seq<(Seq<char>, int)>, x: (Seq<char>, int))
    ensures
        times_sum(insert_desc(s, x)) == times_sum(s) + x.1,
    decreases s.len(),
{
    if s.len() == 0 {
        assert(insert_desc(s, x).drop_first() =~= Seq::<(Seq<char>, int)>::empty());
        assert(times_sum(Seq::<(Seq<char>, int)>::empty()) == 0);
    } else if s[0].1 < x.1 {
        assert(insert_desc(s, x).drop_first() =~= s);
    } else {
        lemma_insert_desc_sum(s.drop_first(), x);
        assert(insert_desc(s, x).drop_first() =~= insert_desc(s.drop_first(), x));
    }
}

proof fn lemma_apps_of_sum(bs: Seq<BlockView>)
    ensures
        times_sum(apps_of(bs)) == blocks_len_sum(bs),
    decreases bs.len(),
{
    if bs.len() > 0 {
        lemma_apps_of_sum(bs.drop_last());
        lemma_add_title_sum(apps_of(bs.drop_last()), bs.last().app, block_len(bs.last()));
    } else {
        assert(times_sum(Seq::<(Seq<char>, int)>::empty()) == 0);
    }
}

proof fn lemma_sort_desc_sum(s: Seq<(Seq<char>, int)>)
    ensures
        times_sum(sort_desc(s)) == times_sum(s),
    decreases s.len(),
{
    if s.len() > 0 {
        lemma_sort_desc_sum(s.drop_last());
        lemma_insert_desc_sum(sort_desc(s.drop_last()), s.last());
        lemma_times_sum_last(s);
    }
}

proof fn lemma_times_sum_last(s: Seq<(Seq<char>, int)>)
    requires
        s.len() > 0,
    ensures
        times_sum(s) == times_sum(s.drop_last()) + s.last().1,
    decreases s.len(),
{
    if s.len() > 1 {
        lemma_times_sum_last(s.drop_first());
        assert(s.drop_first().drop_last() =~= s.drop_last().drop_first());
    } else {
        assert(s.drop_first() =~= Seq::<(Seq<char>, int)>::empty());
        assert(s.drop_last() =~= Seq::<(Seq<char>, int)>::empty());
    }
}

/// The app ranking of focus time is ordered longest first, holds the same
/// entries as the per-app totals, and adds up to the total length of the blocks.
pub proof fn lemma_apps_ranked(bs: Seq<BlockView>)
    ensures
        sorted_desc(apps_ranked(bs)),
        apps_ranked(bs).to_multiset() == apps_of(bs).to_multiset(),
        times_sum(apps_ranked(bs)) == blocks_len_sum(bs),
{
    lemma_sort_desc(apps_of(bs));
    lemma_apps_of_sum(bs);
    lemma_sort_desc_sum(apps_of(bs));
}

/// The sum of focus times of a day list.
pub open spec fn day_times_sum(ds: Seq<DayTotal>) -> int
    decreases ds.len(),
{
    if ds.len() == 0 {
        0
    } else {
        ds[0].1 + day_times_sum(ds.drop_first())
    }
}

/// The sum of block counts of a day list.
pub open spec fn day_counts_sum(ds: Seq<DayTotal>) -> int
    decreases ds.len(),
{
    if ds.len() == 0 {
        0
    } else {
        ds[0].2 + day_counts_sum(ds.drop_first())
    }
}

proof fn lemma_add_day_sums(ds: Seq<DayTotal>, d: Seq<char>, n: int)
    ensures
        day_times_sum(add_day(ds, d, n)) == day_times_sum(ds) + n,
        day_counts_sum(add_day(ds, d, n)) == day_counts_sum(ds) + 1,
    decreases ds.len(),
{
    if ds.len() == 0 {
        assert(add_day(ds, d, n).drop_first() =~= Seq::<DayTotal>::empty());
        assert(day_times_sum(Seq::<DayTotal>::empty()) == 0);
        assert(day_counts_sum(Seq::<DayTotal>::empty()) == 0);
    } else if ds[0].0 == d {
        assert(add_day(ds, d, n).drop_first() =~= ds.drop_first());
    } else {
        lemma_add_day_sums(ds.drop_first(), d, n);
        assert(add_day(ds, d, n).drop_first() =~= add_day(ds.drop_first(), d, n));
    }
}

/// The per-day table adds up: its times sum to the total length of the
/// blocks, and its counts to the number of blocks.
pub proof fn lemma_days_add_up(bs: Seq<BlockView>, offset: int)
    ensures
        day_times_sum(days_of(bs, offset)) == blocks_len_sum(bs),
        day_counts_sum(days_of(bs, offset)) == bs.len(),
    decreases bs.len(),
{
    if bs.len() > 0 {
        lemma_days_add_up(bs.drop_last(), offset);
        lemma_add_day_sums(
            days_of(bs.drop_last(), offset),
            mmdd_text(bs.last().start_t, offset),
            block_len(bs.last()),
        );
    } else {
        assert(day_times_sum(Seq::<DayTotal>::empty()) == 0);
        assert(day_counts_sum(Seq::<DayTotal>::empty()) == 0);
    }
}

/// The focus time of the blocks whose start falls on local day `d`.
pub open spec fn time_on_day(bs: Seq<BlockView>, d: Seq<char>, offset: int) -> int
    decreases bs.len(),
{
    if bs.len() == 0 {
        0
    } else {
        time_on_day(bs.drop_last(), d, offset) + (if mmdd_text(bs.last().start_t, offset) == d {
            block_len(bs.last())
        } else {
            0
        })
    }
}

/// How many blocks start on local day `d`.
pub open spec fn blocks_on_day(bs: Seq<BlockView>, d: Seq<char>, offset: int) -> int
    decreases bs.len(),
{
    if bs.len() == 0 {
        0
    } else {
        blocks_on_day(bs.drop_last(), d, offset) + (if mmdd_text(bs.last().start_t, offset) == d {
            1int
        } else {
            0
        })
    }
}

/// The per-day entries `ds` match the blocks `bs`: day names appear once,
/// each entry holds the total length and the number of the blocks that start
/// on its local day (at least one), every block's day has an entry, and a
/// day without an entry has no block.
pub open spec fn days_match(bs: Seq<BlockView>, ds: Seq<DayTotal>, offset: int) -> bool {
    &&& forall|i: int, j: int| 0 <= i < j < ds.len() ==> (#[trigger] ds[i]).0 != (#[trigger] ds[j]).0
    &&& forall|i: int|
        0 <= i < ds.len() ==> (#[trigger] ds[i]).1 == time_on_day(bs, ds[i].0, offset) && ds[i].2
            == blocks_on_day(bs, ds[i].0, offset) && ds[i].2 >= 1
    &&& forall|k: int|
        0 <= k < bs.len() ==> exists|i: int|
            0 <= i < ds.len() && (#[trigger] ds[i]).0 == mmdd_text((#[trigger] bs[k]).start_t, offset)
    &&& forall|d: Seq<char>|
        (forall|i: int| 0 <= i < ds.len() ==> (#[trigger] ds[i]).0 != d) ==> #[trigger] blocks_on_day(
            bs,
            d,
            offset,
        ) == 0 && time_on_day(bs, d, offset) == 0
}

proof fn lemma_days_step_known(p: Seq<BlockView>, b: BlockView, offset: int, j: int)
    requires
        days_match(p, days_of(p, offset), offset),
        0 <= j < days_of(p, offset).len(),
        days_of(p, offset)[j].0 == mmdd_text(b.start_t, offset),
    ensures
        days_match(p.push(b), days_of(p.push(b), offset), offset),
{
    let bs = p.push(b);
    let ds = days_of(p, offset);
    let e = mmdd_text(b.start_t, offset);
    let n = block_len(b);
    assert(bs.drop_last() =~= p);
    let res = days_of(bs, offset);
    assert forall|k: int| 0 <= k < j implies ds[k].0 != e by {
        if ds[k].0 == e {
            assert(ds[k].0 == ds[j].0);
        }
    }
    lemma_add_day_at(ds, e, n, j);
    assert(res == ds.update(j, (e, ds[j].1 + n, ds[j].2 + 1)));
    assert forall|i: int, l: int| 0 <= i < l < res.len() implies (#[trigger] res[i]).0
        != (#[trigger] res[l]).0 by {
        assert(res[i].0 == ds[i].0 && res[l].0 == ds[l].0);
    }
    assert forall|i: int| 0 <= i < res.len() implies (#[trigger] res[i]).1 == time_on_day(
        bs,
        res[i].0,
        offset,
    ) && res[i].2 == blocks_on_day(bs, res[i].0, offset) && res[i].2 >= 1 by {
        assert(res[i].0 == ds[i].0);
    }
    assert forall|k: int| 0 <= k < bs.len() implies exists|i: int|
        0 <= i < res.len() && (#[trigger] res[i]).0 == mmdd_text((#[trigger] bs[k]).start_t, offset) by {
        if k < p.len() {
            assert(bs[k] == p[k]);
            let i = choose|i: int|
                0 <= i < ds.len() && (#[trigger] ds[i]).0 == mmdd_text((#[trigger] p[k]).start_t, offset);
            assert(res[i].0 == ds[i].0);
        } else {
            assert(res[j].0 == e);
        }
    }
    assert forall|d: Seq<char>| (forall|i: int| 0 <= i < res.len() ==> (#[trigger] res[i]).0 != d)
        implies #[trigger] blocks_on_day(bs, d, offset) == 0 && time_on_day(bs, d, offset) == 0 by {
        assert(res[j].0 == e);
        assert(d != e);
        assert forall|i: int| 0 <= i < ds.len() implies (#[trigger] ds[i]).0 != d by {
            assert(res[i].0 == ds[i].0);
        }
        assert(blocks_on_day(p, d, offset) == 0 && time_on_day(p, d, offset) == 0);
    }
}

proof fn lemma_days_step_new(p: Seq<BlockView>, b: BlockView, offset: int)
    requires
        days_match(p, days_of(p, offset), offset),
        forall|i: int|
            0 <= i < days_of(p, offset).len() ==> (#[trigger] days_of(p, offset)[i]).0 != mmdd_text(
                b.start_t,
                offset,
            ),
    ensures
        days_match(p.push(b), days_of(p.push(b), offset), offset),
{
    let bs = p.push(b);
    let ds = days_of(p, offset);
    let e = mmdd_text(b.start_t, offset);
    let n = block_len(b);
    assert(bs.drop_last() =~= p);
    let res = days_of(bs, offset);
    lemma_add_day_new(ds, e, n);
    assert(res == ds.push((e, n, 1)));
    assert(blocks_on_day(p, e, offset) == 0 && time_on_day(p, e, offset) == 0);
    assert forall|i: int, l: int| 0 <= i < l < res.len() implies (#[trigger] res[i]).0
        != (#[trigger] res[l]).0 by {
        if l < ds.len() {
            assert(res[i].0 == ds[i].0 && res[l].0 == ds[l].0);
        } else {
            assert(res[i].0 == ds[i].0);
        }
    }
    assert forall|i: int| 0 <= i < res.len() implies (#[trigger] res[i]).1 == time_on_day(
        bs,
        res[i].0,
        offset,
    ) && res[i].2 == blocks_on_day(bs, res[i].0, offset) && res[i].2 >= 1 by {
        if i < ds.len() {
            assert(res[i] == ds[i]);
        }
    }
    assert forall|k: int| 0 <= k < bs.len() implies exists|i: int|
        0 <= i < res.len() && (#[trigger] res[i]).0 == mmdd_text((#[trigger] bs[k]).start_t, offset) by {
        if k < p.len() {
            assert(bs[k] == p[k]);
            let i = choose|i: int|
                0 <= i < ds.len() && (#[trigger] ds[i]).0 == mmdd_text((#[trigger] p[k]).start_t, offset);
            assert(res[i].0 == ds[i].0);
        } else {
            assert(res[ds.len() as int].0 == e);
        }
    }
    assert forall|d: Seq<char>| (forall|i: int| 0 <= i < res.len() ==> (#[trigger] res[i]).0 != d)
        implies #[trigger] blocks_on_day(bs, d, offset) == 0 && time_on_day(bs, d, offset) == 0 by {
        assert(res[ds.len() as int].0 == e);
        assert(d != e);
        assert forall|i: int| 0 <= i < ds.len() implies (#[trigger] ds[i]).0 != d by {
            assert(res[i].0 == ds[i].0);
        }
        assert(blocks_on_day(p, d, offset) == 0 && time_on_day(p, d, offset) == 0);
    }
}

/// Each block is counted under the local calendar day (in `offset`) of its
/// start: every block's day has an entry, days appear once, each entry holds
/// the total length and the number of the blocks that start on its day (at
/// least one), and a day without an entry has no block.
pub proof fn lemma_days_by_local_start(bs: Seq<BlockView>, offset: int)
    ensures
        forall|i: int, j: int|
            0 <= i < j < days_of(bs, offset).len() ==> (#[trigger] days_of(bs, offset)[i]).0
                != (#[trigger] days_of(bs, offset)[j]).0,
        forall|i: int|
            0 <= i < days_of(bs, offset).len() ==> (#[trigger] days_of(bs, offset)[i]).1
                == time_on_day(bs, days_of(bs, offset)[i].0, offset) && days_of(bs, offset)[i].2
                == blocks_on_day(bs, days_of(bs, offset)[i].0, offset) && days_of(bs, offset)[i].2
                >= 1,
        forall|k: int|
            0 <= k < bs.len() ==> exists|i: int|
                0 <= i < days_of(bs, offset).len() && (#[trigger] days_of(bs, offset)[i]).0
                    == mmdd_text((#[trigger] bs[k]).start_t, offset),
        forall|d: Seq<char>|
            (forall|i: int| 0 <= i < days_of(bs, offset).len() ==> (#[trigger] days_of(bs, offset)[i]).0 != d)
                ==> #[trigger] blocks_on_day(bs, d, offset) == 0 && time_on_day(bs, d, offset) == 0,
{
    lemma_days_match(bs, offset);
}

proof fn lemma_days_match(bs: Seq<BlockView>, offset: int)
    ensures
        days_match(bs, days_of(bs, offset), offset),
    decreases bs.len(),
{
    if bs.len() > 0 {
        let p = bs.drop_last();
        let b = bs.last();
        lemma_days_match(p, offset);
        assert(p.push(b) =~= bs);
        let ds = days_of(p, offset);
        let e = mmdd_text(b.start_t, offset);
        if exists|j: int| 0 <= j < ds.len() && ds[j].0 == e {
            let j = choose|j: int| 0 <= j < ds.len() && ds[j].0 == e;
            lemma_days_step_known(p, b, offset, j);
        } else {
            lemma_days_step_new(p, b, offset);
        }
    } else {
        assert(days_of(bs, offset) =~= Seq::<DayTotal>::empty());
    }
}

// ---------- per-app totals, app by app ----------

/// The focus time of the blocks of app `a`.
pub open spec fn time_of_app(bs: Seq<BlockView>, a: Seq<char>) -> int
    decreases bs.len(),
{
    if bs.len() == 0 {
        0
    } else {
        time_of_app(bs.drop_last(), a) + (if bs.last().app == a {
            block_len(bs.last())
        } else {
            0
        })
    }
}

/// The per-app entries `ts` match the blocks `bs`: apps appear once, each
/// entry holds the total length of its app's blocks, every block's app has
/// an entry, and an app without an entry has no time.
pub open spec fn apps_match(bs: Seq<BlockView>, ts: Seq<(Seq<char>, int)>) -> bool {
    &&& distinct_titles(ts)
    &&& forall|i: int| 0 <= i < ts.len() ==> (#[trigger] ts[i]).1 == time_of_app(bs, ts[i].0)
    &&& forall|k: int|
        0 <= k < bs.len() ==> exists|i: int| 0 <= i < ts.len() && (#[trigger] ts[i]).0 == (#[trigger] bs[k]).app
    &&& forall|a: Seq<char>|
        (forall|i: int| 0 <= i < ts.len() ==> (#[trigger] ts[i]).0 != a) ==> #[trigger] time_of_app(bs, a) == 0
}

proof fn lemma_apps_step_known(p: Seq<BlockView>, b: BlockView, j: int)
    requires
        apps_match(p, apps_of(p)),
        0 <= j < apps_of(p).len(),
        apps_of(p)[j].0 == b.app,
    ensures
        apps_match(p.push(b), apps_of(p.push(b))),
{
    let bs = p.push(b);
    let ts = apps_of(p);
    let e = b.app;
    let n = block_len(b);
    assert(bs.drop_last() =~= p);
    let res = apps_of(bs);
    assert forall|k: int| 0 <= k < j implies ts[k].0 != e by {
        if ts[k].0 == e {
            assert(ts[k].0 == ts[j].0);
        }
    }
    lemma_add_title_at(ts, e, n, j);
    assert(res == ts.update(j, (e, ts[j].1 + n)));
    assert forall|i: int, l: int| 0 <= i < l < res.len() implies #[trigger] res[i].0 != #[trigger] res[l].0 by {
        assert(res[i].0 == ts[i].0 && res[l].0 == ts[l].0);
    }
    assert forall|i: int| 0 <= i < res.len() implies (#[trigger] res[i]).1 == time_of_app(bs, res[i].0) by {
        assert(res[i].0 == ts[i].0);
    }
    assert forall|k: int| 0 <= k < bs.len() implies exists|i: int|
        0 <= i < res.len() && (#[trigger] res[i]).0 == (#[trigger] bs[k]).app by {
        if k < p.len() {
            assert(bs[k] == p[k]);
            let i = choose|i: int| 0 <= i < ts.len() && (#[trigger] ts[i]).0 == (#[trigger] p[k]).app;
            assert(res[i].0 == ts[i].0);
        } else {
            assert(res[j].0 == e);
        }
    }
    assert forall|a: Seq<char>| (forall|i: int| 0 <= i < res.len() ==> (#[trigger] res[i]).0 != a)
        implies #[trigger] time_of_app(bs, a) == 0 by {
        assert(res[j].0 == e);
        assert(a != e);
        assert forall|i: int| 0 <= i < ts.len() implies (#[trigger] ts[i]).0 != a by {
            assert(res[i].0 == ts[i].0);
        }
        assert(time_of_app(p, a) == 0);
    }
}

proof fn lemma_apps_step_new(p: Seq<BlockView>, b: BlockView)
    requires
        apps_match(p, apps_of(p)),
        forall|i: int| 0 <= i < apps_of(p).len() ==> (#[trigger] apps_of(p)[i]).0 != b.app,
    ensures
        apps_match(p.push(b), apps_of(p.push(b))),
{
    let bs = p.push(b);
    let ts = apps_of(p);
    let e = b.app;
    let n = block_len(b);
    assert(bs.drop_last() =~= p);
    let res = apps_of(bs);
    let last = ts.len() as int;
    lemma_add_title_new(ts, e, n);
    assert(res == ts.push((e, n)));
    assert(time_of_app(p, e) == 0);
    assert forall|i: int, l: int| 0 <= i < l < res.len() implies #[trigger] res[i].0 != #[trigger] res[l].0 by {
        if l < ts.len() {
            assert(res[i].0 == ts[i].0 && res[l].0 == ts[l].0);
        } else {
            assert(res[i].0 == ts[i].0);
        }
    }
    assert forall|i: int| 0 <= i < res.len() implies (#[trigger] res[i]).1 == time_of_app(bs, res[i].0) by {
        if i < ts.len() {
            assert(res[i] == ts[i]);
        }
    }
    assert forall|k: int| 0 <= k < bs.len() implies exists|i: int|
        0 <= i < res.len() && (#[trigger] res[i]).0 == (#[trigger] bs[k]).app by {
        if k < p.len() {
            assert(bs[k] == p[k]);
            let i = choose|i: int| 0 <= i < ts.len() && (#[trigger] ts[i]).0 == (#[trigger] p[k]).app;
            assert(res[i].0 == ts[i].0);
        } else {
            assert(res[last].0 == e);
        }
    }
    assert forall|a: Seq<char>| (forall|i: int| 0 <= i < res.len() ==> (#[trigger] res[i]).0 != a)
        implies #[trigger] time_of_app(bs, a) == 0 by {
        assert(res[last].0 == e);
        assert(a != e);
        assert forall|i: int| 0 <= i < ts.len() implies (#[trigger] ts[i]).0 != a by {
            assert(res[i].0 == ts[i].0);
        }
        assert(time_of_app(p, a) == 0);
    }
}

proof fn lemma_apps_match(bs: Seq<BlockView>)
    ensures
        apps_match(bs, apps_of(bs)),
    decreases bs.len(),
{
    if bs.len() > 0 {
        let p = bs.drop_last();
        let b = bs.last();
        lemma_apps_match(p);
        assert(p.push(b) =~= bs);
        let ts = apps_of(p);
        if exists|j: int| 0 <= j < ts.len() && ts[j].0 == b.app {
            let j = choose|j: int| 0 <= j < ts.len() && ts[j].0 == b.app;
            lemma_apps_step_known(p, b, j);
        } else {
            lemma_apps_step_new(p, b);
        }
    } else {
        assert(apps_of(bs) =~= Seq::<(Seq<char>, int)>::empty());
    }
}

/// Every entry of the per-app totals is the app of some block.
proof fn lemma_apps_named(bs: Seq<BlockView>)
    ensures
        forall|i: int|
            0 <= i < apps_of(bs).len() ==> exists|k: int|
                0 <= k < bs.len() && (#[trigger] bs[k]).app == (#[trigger] apps_of(bs)[i]).0,
    decreases bs.len(),
{
    if bs.len() > 0 {
        let p = bs.drop_last();
        let b = bs.last();
        lemma_apps_named(p);
        let ts = apps_of(p);
        let res = apps_of(bs);
        let n = block_len(b);
        let last = bs.len() - 1;
        assert(bs[last] == b);
        if exists|j: int| 0 <= j < ts.len() && ts[j].0 == b.app {
            let j = choose|j: int| 0 <= j < ts.len() && ts[j].0 == b.app;
            let j0 = first_named(ts, b.app, j);
            lemma_add_title_at(ts, b.app, n, j0);
            assert forall|i: int| 0 <= i < res.len() implies exists|k: int|
                0 <= k < bs.len() && (#[trigger] bs[k]).app == (#[trigger] res[i]).0 by {
                assert(res[i].0 == ts[i].0);
                let k = choose|k: int| 0 <= k < p.len() && (#[trigger] p[k]).app == (#[trigger] ts[i]).0;
                assert(bs[k] == p[k]);
            }
        } else {
            lemma_add_title_new(ts, b.app, n);
            assert forall|i: int| 0 <= i < res.len() implies exists|k: int|
                0 <= k < bs.len() && (#[trigger] bs[k]).app == (#[trigger] res[i]).0 by {
                if i < ts.len() {
                    assert(res[i].0 == ts[i].0);
                    let k = choose|k: int| 0 <= k < p.len() && (#[trigger] p[k]).app == (#[trigger] ts[i]).0;
                    assert(bs[k] == p[k]);
                } else {
                    assert(res[i].0 == b.app);
                }
            }
        }
    }
}

/// The first entry named `a`, given that entry `j` is.
proof fn first_named(ts: Seq<(Seq<char>, int)>, a: Seq<char>, j: int) -> (f: int)
    requires
        0 <= j < ts.len(),
        ts[j].0 == a,
    ensures
        0 <= f <= j,
        ts[f].0 == a,
        forall|k: int| 0 <= k < f ==> ts[k].0 != a,
    decreases j,
{
    if exists|k: int| 0 <= k < j && ts[k].0 == a {
        let k = choose|k: int| 0 <= k < j && ts[k].0 == a;
        first_named(ts, a, k)
    } else {
        j
    }
}

/// Every entry of a ranking is one of the ranked entries.
proof fn lemma_sort_desc_from(s: Seq<(Seq<char>, int)>)
    ensures
        sort_desc(s).len() == s.len(),
        forall|i: int| 0 <= i < s.len() ==> exists|j: int| 0 <= j < s.len() && #[trigger] sort_desc(s)[i] == s[j],
    decreases s.len(),
{
    if s.len() > 0 {
        let d = s.drop_last();
        let x = s.last();
        lemma_sort_desc_from(d);
        let sd = sort_desc(d);
        lemma_desc_pos(sd, x);
        let p = desc_pos(sd, x);
        let r = sort_desc(s);
        assert(r == sd.insert(p, x));
        assert forall|i: int| 0 <= i < s.len() implies exists|j: int| 0 <= j < s.len() && #[trigger] r[i] == s[j] by {
            if i < p {
                assert(r[i] == sd[i]);
                let j = choose|j: int| 0 <= j < d.len() && #[trigger] sd[i] == d[j];
                assert(s[j] == d[j]);
            } else if i == p {
                assert(r[i] == s[s.len() - 1]);
            } else {
                assert(r[i] == sd[i - 1]);
                let j = choose|j: int| 0 <= j < d.len() && #[trigger] sd[i - 1] == d[j];
                assert(s[j] == d[j]);
            }
        }
    }
}

/// Every ranked entry is in the ranking.
proof fn lemma_sort_desc_keeps(s: Seq<(Seq<char>, int)>)
    ensures
        sort_desc(s).len() == s.len(),
        forall|j: int| 0 <= j < s.len() ==> exists|i: int| 0 <= i < s.len() && sort_desc(s)[i] == #[trigger] s[j],
    decreases s.len(),
{
    if s.len() > 0 {
        let d = s.drop_last();
        let x = s.last();
        lemma_sort_desc_keeps(d);
        let sd = sort_desc(d);
        lemma_desc_pos(sd, x);
        let p = desc_pos(sd, x);
        let r = sort_desc(s);
        assert(r == sd.insert(p, x));
        assert forall|j: int| 0 <= j < s.len() implies exists|i: int| 0 <= i < s.len() && r[i] == #[trigger] s[j] by {
            if j < d.len() {
                assert(s[j] == d[j]);
                let i = choose|i: int| 0 <= i < d.len() && sd[i] == #[trigger] d[j];
                if i < p {
                    assert(r[i] == sd[i]);
                } else {
                    assert(r[i + 1] == sd[i]);
                }
            } else {
                assert(r[p] == x);
            }
        }
    }
}

/// Ranking keeps names that were distinct distinct.
proof fn lemma_sort_desc_distinct(s: Seq<(Seq<char>, int)>)
    requires
        distinct_titles(s),
    ensures
        distinct_titles(sort_desc(s)),
    decreases s.len(),
{
    if s.len() > 0 {
        let d = s.drop_last();
        let x = s.last();
        assert(distinct_titles(d)) by {
            assert forall|i: int, l: int| 0 <= i < l < d.len() implies #[trigger] d[i].0 != #[trigger] d[l].0 by {
                assert(d[i] == s[i] && d[l] == s[l]);
            }
        }
        lemma_sort_desc_distinct(d);
        lemma_sort_desc_from(d);
        let sd = sort_desc(d);
        lemma_desc_pos(sd, x);
        let p = desc_pos(sd, x);
        let r = sort_desc(s);
        assert(r == sd.insert(p, x));
        assert forall|i: int| 0 <= i < sd.len() implies #[trigger] sd[i].0 != x.0 by {
            let j = choose|j: int| 0 <= j < d.len() && #[trigger] sd[i] == d[j];
            assert(d[j] == s[j]);
            assert(s[j].0 != s[s.len() - 1].0);
        }
        assert forall|i: int, l: int| 0 <= i < l < r.len() implies #[trigger] r[i].0 != #[trigger] r[l].0 by {
            if l < p {
                assert(r[i] == sd[i] && r[l] == sd[l]);
            } else if l == p {
                assert(r[i] == sd[i]);
            } else if i < p {
                assert(r[i] == sd[i] && r[l] == sd[l - 1]);
            } else if i == p {
                assert(r[l] == sd[l - 1]);
            } else {
                assert(r[i] == sd[i - 1] && r[l] == sd[l - 1]);
            }
        }
    }
}

/// Each block is counted under its own app: in the ranking each app appears
/// once and is the app of some block, each entry holds the total length of
/// that app's blocks, and every block's app has an entry.
pub proof fn lemma_apps_by_app(bs: Seq<BlockView>)
    ensures
        forall|i: int, j: int|
            0 <= i < j < apps_ranked(bs).len() ==> (#[trigger] apps_ranked(bs)[i]).0
                != (#[trigger] apps_ranked(bs)[j]).0,
        forall|i: int|
            0 <= i < apps_ranked(bs).len() ==> (#[trigger] apps_ranked(bs)[i]).1 == time_of_app(
                bs,
                apps_ranked(bs)[i].0,
            ),
        forall|i: int|
            0 <= i < apps_ranked(bs).len() ==> exists|k: int|
                0 <= k < bs.len() && (#[trigger] bs[k]).app == (#[trigger] apps_ranked(bs)[i]).0,
        forall|k: int|
            0 <= k < bs.len() ==> exists|i: int|
                0 <= i < apps_ranked(bs).len() && (#[trigger] apps_ranked(bs)[i]).0 == (#[trigger] bs[k]).app,
{
    let ts = apps_of(bs);
    let r = apps_ranked(bs);
    assert forall|i: int, j: int| 0 <= i < j < r.len() implies (#[trigger] r[i]).0 != (#[trigger] r[j]).0 by {
        lemma_apps_match(bs);
        lemma_sort_desc_distinct(ts);
        assert(r[i].0 != r[j].0);
    }
    assert forall|i: int| 0 <= i < r.len() implies (#[trigger] r[i]).1 == time_of_app(bs, r[i].0) by {
        lemma_apps_match(bs);
        lemma_sort_desc_from(ts);
        let j = choose|j: int| 0 <= j < ts.len() && #[trigger] r[i] == ts[j];
        assert(ts[j].1 == time_of_app(bs, ts[j].0));
    }
    assert forall|i: int| 0 <= i < r.len() implies exists|k: int|
        0 <= k < bs.len() && (#[trigger] bs[k]).app == (#[trigger] r[i]).0 by {
        lemma_apps_named(bs);
        lemma_sort_desc_from(ts);
        let j = choose|j: int| 0 <= j < ts.len() && #[trigger] r[i] == ts[j];
        let k = choose|k: int| 0 <= k < bs.len() && (#[trigger] bs[k]).app == (#[trigger] ts[j]).0;
        assert(bs[k].app == r[i].0);
    }
    assert forall|k: int| 0 <= k < bs.len() implies exists|i: int|
        0 <= i < r.len() && (#[trigger] r[i]).0 == (#[trigger] bs[k]).app by {
        lemma_apps_match(bs);
        lemma_sort_desc_keeps(ts);
        let j = choose|j: int| 0 <= j < ts.len() && (#[trigger] ts[j]).0 == (#[trigger] bs[k]).app;
        let i = choose|i: int| 0 <= i < ts.len() && r[i] == #[trigger] ts[j];
        assert(r[i].0 == bs[k].app);
    }
}

// ---------- the order of the days ----------

/// The position of the first block that starts on local day `d`, or the
/// number of blocks when none does.
pub open spec fn first_on_day(bs: Seq<BlockView>, d: Seq<char>, offset: int) -> int
    decreases bs.len(),
{
    if bs.len() == 0 {
        0
    } else if first_on_day(bs.drop_last(), d, offset) < bs.len() - 1 {
        first_on_day(bs.drop_last(), d, offset)
    } else if mmdd_text(bs.last().start_t, offset) == d {
        bs.len() - 1
    } else {
        bs.len() as int
    }
}

proof fn lemma_first_on_day(bs: Seq<BlockView>, d: Seq<char>, offset: int)
    ensures
        0 <= first_on_day(bs, d, offset) <= bs.len(),
        (first_on_day(bs, d, offset) < bs.len()) == (blocks_on_day(bs, d, offset) > 0),
        blocks_on_day(bs, d, offset) >= 0,
    decreases bs.len(),
{
    if bs.len() > 0 {
        lemma_first_on_day(bs.drop_last(), d, offset);
    }
}

/// The days come in the order of their first blocks: a day listed earlier
/// had its first block before that of any day listed later.
pub proof fn lemma_days_in_first_order(bs: Seq<BlockView>, offset: int)
    ensures
        forall|i: int|
            0 <= i < days_of(bs, offset).len() ==> first_on_day(
                bs,
                (#[trigger] days_of(bs, offset)[i]).0,
                offset,
            ) < bs.len(),
        forall|i: int, j: int|
            0 <= i < j < days_of(bs, offset).len() ==> first_on_day(
                bs,
                (#[trigger] days_of(bs, offset)[i]).0,
                offset,
            ) < first_on_day(bs, (#[trigger] days_of(bs, offset)[j]).0, offset),
    decreases bs.len(),
{
    if bs.len() > 0 {
        let p = bs.drop_last();
        let b = bs.last();
        let n = p.len() as int;
        lemma_days_in_first_order(p, offset);
        lemma_days_match(p, offset);
        let ds = days_of(p, offset);
        let res = days_of(bs, offset);
        let e = mmdd_text(b.start_t, offset);
        let len = block_len(b);
        assert forall|i: int| 0 <= i < ds.len() implies first_on_day(bs, (#[trigger] ds[i]).0, offset)
            == first_on_day(p, ds[i].0, offset) by {
        }
        if exists|j: int| 0 <= j < ds.len() && ds[j].0 == e {
            let j = choose|j: int| 0 <= j < ds.len() && ds[j].0 == e;
            assert forall|k: int| 0 <= k < j implies ds[k].0 != e by {
                if ds[k].0 == e {
                    assert(ds[k].0 == ds[j].0);
                }
            }
            lemma_add_day_at(ds, e, len, j);
            assert forall|i: int| 0 <= i < res.len() implies first_on_day(bs, (#[trigger] res[i]).0, offset)
                < bs.len() by {
                assert(res[i].0 == ds[i].0);
            }
            assert forall|i: int, l: int| 0 <= i < l < res.len() implies first_on_day(
                bs,
                (#[trigger] res[i]).0,
                offset,
            ) < first_on_day(bs, (#[trigger] res[l]).0, offset) by {
                assert(res[i].0 == ds[i].0 && res[l].0 == ds[l].0);
            }
        } else {
            lemma_add_day_new(ds, e, len);
            assert(blocks_on_day(p, e, offset) == 0);
            lemma_first_on_day(p, e, offset);
            assert(first_on_day(bs, e, offset) == n);
            assert forall|i: int| 0 <= i < res.len() implies first_on_day(bs, (#[trigger] res[i]).0, offset)
                < bs.len() by {
                if i < ds.len() {
                    assert(res[i].0 == ds[i].0);
                } else {
                    assert(res[i].0 == e);
                }
            }
            assert forall|i: int, l: int| 0 <= i < l < res.len() implies first_on_day(
                bs,
                (#[trigger] res[i]).0,
                offset,
            ) < first_on_day(bs, (#[trigger] res[l]).0, offset) by {
                assert(res[i].0 == ds[i].0);
                if l < ds.len() {
                    assert(res[l].0 == ds[l].0);
                } else {
                    assert(res[l].0 == e);
                }
            }
        }
    }
}

// ---------- the order of apps with equal time ----------

/// The position of the first block of app `a`, or the number of blocks when
/// there is none.
pub open spec fn first_of_app(bs: Seq<BlockView>, a: Seq<char>) -> int
    decreases bs.len(),
{
    if bs.len() == 0 {
        0
    } else if first_of_app(bs.drop_last(), a) < bs.len() - 1 {
        first_of_app(bs.drop_last(), a)
    } else if bs.last().app == a {
        bs.len() - 1
    } else {
        bs.len() as int
    }
}

proof fn lemma_first_of_app(bs: Seq<BlockView>, a: Seq<char>)
    ensures
        0 <= first_of_app(bs, a) <= bs.len(),
        (forall|k: int| 0 <= k < bs.len() ==> (#[trigger] bs[k]).app != a) ==> first_of_app(bs, a)
            == bs.len(),
    decreases bs.len(),
{
    if bs.len() > 0 {
        let p = bs.drop_last();
        lemma_first_of_app(p, a);
        if forall|k: int| 0 <= k < bs.len() ==> (#[trigger] bs[k]).app != a {
            assert forall|k: int| 0 <= k < p.len() implies (#[trigger] p[k]).app != a by {
                assert(p[k] == bs[k]);
            }
            assert(bs[bs.len() - 1] == bs.last());
        }
    }
}

/// The per-app totals list apps in the order of their first blocks.
proof fn lemma_apps_in_first_order(bs: Seq<BlockView>)
    ensures
        forall|i: int| 0 <= i < apps_of(bs).len() ==> first_of_app(bs, (#[trigger] apps_of(bs)[i]).0) < bs.len(),
        forall|i: int, j: int|
            0 <= i < j < apps_of(bs).len() ==> first_of_app(bs, (#[trigger] apps_of(bs)[i]).0)
                < first_of_app(bs, (#[trigger] apps_of(bs)[j]).0),
    decreases bs.len(),
{
    if bs.len() > 0 {
        let p = bs.drop_last();
        let b = bs.last();
        let n = p.len() as int;
        lemma_apps_in_first_order(p);
        lemma_apps_match(p);
        let ts = apps_of(p);
        let res = apps_of(bs);
        let e = b.app;
        let len = block_len(b);
        assert forall|i: int| 0 <= i < ts.len() implies first_of_app(bs, (#[trigger] ts[i]).0)
            == first_of_app(p, ts[i].0) by {
        }
        if exists|j: int| 0 <= j < ts.len() && ts[j].0 == e {
            let j = choose|j: int| 0 <= j < ts.len() && ts[j].0 == e;
            let j0 = first_named(ts, e, j);
            lemma_add_title_at(ts, e, len, j0);
            assert forall|i: int| 0 <= i < res.len() implies first_of_app(bs, (#[trigger] res[i]).0) < bs.len() by {
                assert(res[i].0 == ts[i].0);
            }
            assert forall|i: int, l: int| 0 <= i < l < res.len() implies first_of_app(bs, (#[trigger] res[i]).0)
                < first_of_app(bs, (#[trigger] res[l]).0) by {
                assert(res[i].0 == ts[i].0 && res[l].0 == ts[l].0);
            }
        } else {
            lemma_add_title_new(ts, e, len);
            assert forall|k: int| 0 <= k < p.len() implies (#[trigger] p[k]).app != e by {
                let i = choose|i: int| 0 <= i < ts.len() && (#[trigger] ts[i]).0 == (#[trigger] p[k]).app;
            }
            lemma_first_of_app(p, e);
            assert(first_of_app(bs, e) == n);
            assert forall|i: int| 0 <= i < res.len() implies first_of_app(bs, (#[trigger] res[i]).0) < bs.len() by {
                if i < ts.len() {
                    assert(res[i].0 == ts[i].0);
                } else {
                    assert(res[i].0 == e);
                }
            }
            assert forall|i: int, l: int| 0 <= i < l < res.len() implies first_of_app(bs, (#[trigger] res[i]).0)
                < first_of_app(bs, (#[trigger] res[l]).0) by {
                assert(res[i].0 == ts[i].0);
                if l < ts.len() {
                    assert(res[l].0 == ts[l].0);
                } else {
                    assert(res[l].0 == e);
                }
            }
        }
    }
}

/// `x` stands before `y` in `s`.
pub open spec fn before_in(s: Seq<(Seq<char>, int)>, x: (Seq<char>, int), y: (Seq<char>, int)) -> bool {
    exists|a: int, b: int| 0 <= a < b < s.len() && #[trigger] s[a] == x && #[trigger] s[b] == y
}

/// Ranking is stable: entries with equal time keep their order.
proof fn lemma_sort_desc_stable(s: Seq<(Seq<char>, int)>)
    ensures
        forall|i: int, j: int|
            0 <= i < j < sort_desc(s).len() && (#[trigger] sort_desc(s)[i]).1 == (#[trigger] sort_desc(s)[j]).1
                ==> before_in(s, sort_desc(s)[i], sort_desc(s)[j]),
    decreases s.len(),
{
    if s.len() > 0 {
        let d = s.drop_last();
        let x = s.last();
        let m = d.len() as int;
        lemma_sort_desc_stable(d);
        lemma_sort_desc_from(d);
        lemma_sort_desc(d);
        let sd = sort_desc(d);
        lemma_desc_pos(sd, x);
        let p = desc_pos(sd, x);
        let r = sort_desc(s);
        assert(r == sd.insert(p, x));
        assert(s[m] == x);
        assert forall|i: int, j: int| 0 <= i < j < r.len() && (#[trigger] r[i]).1 == (#[trigger] r[j]).1
            implies before_in(s, r[i], r[j]) by {
            if j < p || (i < p && j > p) || i > p {
                let i2 = if i < p { i } else { i - 1 };
                let j2 = if j < p { j } else { j - 1 };
                assert(r[i] == sd[i2] && r[j] == sd[j2]);
                assert(before_in(d, sd[i2], sd[j2]));
                let (a, b) = choose|a: int, b: int| 0 <= a < b < d.len() && #[trigger] d[a] == sd[i2] && #[trigger] d[b] == sd[j2];
                assert(s[a] == d[a] && s[b] == d[b]);
            } else if j == p {
                assert(r[i] == sd[i]);
                let a = choose|a: int| 0 <= a < d.len() && #[trigger] sd[i] == d[a];
                assert(s[a] == d[a]);
            } else {
                assert(i == p && r[i] == x);
                assert(r[j] == sd[j - 1]);
                assert(sd[p].1 < x.1);
                if j - 1 > p {
                    assert(sd[p].1 >= sd[j - 1].1);
                }
            }
        }
    }
}

/// Apps with the same focus time are ranked in the order of their first
/// blocks.
pub proof fn lemma_apps_ties_in_first_order(bs: Seq<BlockView>)
    ensures
        forall|i: int, j: int|
            0 <= i < j < apps_ranked(bs).len() && (#[trigger] apps_ranked(bs)[i]).1
                == (#[trigger] apps_ranked(bs)[j]).1 ==> first_of_app(bs, apps_ranked(bs)[i].0)
                < first_of_app(bs, apps_ranked(bs)[j].0),
{
    let ts = apps_of(bs);
    let r = apps_ranked(bs);
    lemma_sort_desc_stable(ts);
    lemma_apps_in_first_order(bs);
    assert forall|i: int, j: int| 0 <= i < j < r.len() && (#[trigger] r[i]).1 == (#[trigger] r[j]).1
        implies first_of_app(bs, r[i].0) < first_of_app(bs, r[j].0) by {
        assert(before_in(ts, r[i], r[j]));
        let (a, b) = choose|a: int, b: int| 0 <= a < b < ts.len() && #[trigger] ts[a] == r[i] && #[trigger] ts[b] == r[j];
        assert(first_of_app(bs, ts[a].0) < first_of_app(bs, ts[b].0));
    }
}

} // verus!
