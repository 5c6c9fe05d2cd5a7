//! The session clock of the collector: how long input has gone on without a
//! long break, and how long the current app has been in front.

use vstd::prelude::*;

verus! {

/// What a `Tracker` holds, in mathematical terms.
pub struct TrackerState {
    /// Input idle for at least this long (ms) breaks the session.
    pub idle_break_ms: nat,
    /// When the running session started; `None` while it is broken.
    pub session_start: Option<int>,
    /// When the current app came to the front (meaningful once an app was seen).
    pub app_start: int,
    /// The app seen last; `None` before the first observation.
    pub cur_app: Option<Seq<char>>,
    /// How many sessions have started.
    pub session_id: nat,
}

/// Follows sessions of activity and the time spent in the current app.
pub struct Tracker {
    idle_break_ms: u64,
    session_start: Option<i64>,
    app_start: i64,
    cur_app: Option<String>,
    session_id: u64,
}

impl View for Tracker {
    type V = TrackerState;

    closed spec fn view(&self) -> TrackerState {
        TrackerState {
            idle_break_ms: self.idle_break_ms as nat,
            session_start: match self.session_start {
                Some(s) => Some(s as int),
                None => None,
            },
            app_start: self.app_start as int,
            cur_app: match self.cur_app {
                Some(a) => Some(a@),
                None => None,
            },
            session_id: self.session_id as nat,
        }
    }
}

pub open spec fn fits_i64(x: int) -> bool {
    i64::MIN <= x <= i64::MAX
}

/// The observation at `t` breaks the session (input idle for too long).
pub open spec fn breaks_session(s: TrackerState, idle_ms: int) -> bool {
    idle_ms >= s.idle_break_ms
}

/// The state after observing `app` in front at time `t`, idle for `idle_ms`.
/// The app clock starts at the first observation and again whenever the app
/// in front differs from the one seen last.
pub open spec fn next_state(s: TrackerState, t: int, app: Seq<char>, idle_ms: int) -> TrackerState {
    let broke = breaks_session(s, idle_ms);
    let starts = !broke && s.session_start is None;
    TrackerState {
        idle_break_ms: s.idle_break_ms,
        session_start: if broke {
            None
        } else if starts {
            Some(t)
        } else {
            s.session_start
        },
        app_start: if s.cur_app != Some(app) {
            t
        } else {
            s.app_start
        },
        cur_app: Some(app),
        session_id: if starts {
            s.session_id + 1
        } else {
            s.session_id
        },
    }
}

/// What an observation reports: (session length, time in the current app).
pub open spec fn reported(s: TrackerState, t: int) -> (int, int) {
    (
        match s.session_start {
            Some(start) => t - start,
            None => 0,
        },
        t - s.app_start,
    )
}

/// The observation can be made without leaving `i64`/`u64`.
pub open spec fn update_fits(s: TrackerState, t: int, app: Seq<char>, idle_ms: int) -> bool {
    let n = next_state(s, t, app, idle_ms);
    &&& n.session_id <= u64::MAX
    &&& fits_i64(reported(n, t).0)
    &&& fits_i64(reported(n, t).1)
}

impl Tracker {
    /// A tracker with no session yet; idle for `idle_break_ms` breaks a session.
    pub fn new(idle_break_ms: u64) -> (r: Tracker)
        ensures
            r@ == (TrackerState {
                idle_break_ms: idle_break_ms as nat,
                session_start: None,
                app_start: 0,
                cur_app: None,
                session_id: 0,
            }),
    {
        Tracker {
            idle_break_ms,
            session_start: None,
            app_start: 0,
            cur_app: None,
            session_id: 0,
        }
    }

    /// Whether `update(t, app, idle_ms)` can run on this tracker.
    pub fn can_update(&self, t: i64, app: &str, idle_ms: u64) -> (r: bool)
        ensures
            r == update_fits(self@, t as int, app@, idle_ms as int),
    {
        let broke = idle_ms >= self.idle_break_ms;
        let id_ok = broke || self.session_start.is_some() || self.session_id < u64::MAX;
        let session_ok = match self.session_start {
            Some(s) => broke || (t as i128 - s as i128 >= i64::MIN as i128 && t as i128 - s as i128
                <= i64::MAX as i128),
            None => true,
        };
        let same_app = match &self.cur_app {
            Some(cur) => String::from_str(app) == *cur,
            None => false,
        };
        let app_ok = !same_app || (t as i128 - self.app_start as i128 >= i64::MIN as i128 && t as i128
            - self.app_start as i128 <= i64::MAX as i128);
        id_ok && session_ok && app_ok
    }

    /// Records that `app` is in front at unix time `t` with input idle for
    /// `idle_ms`; returns how long the session and the app have lasted.
    pub fn update(&mut self, t: i64, app: &str, idle_ms: u64) -> (r: (i64, i64))
        requires
            update_fits(old(self)@, t as int, app@, idle_ms as int),
        ensures
            final(self)@ == next_state(old(self)@, t as int, app@, idle_ms as int),
            r.0 == reported(final(self)@, t as int).0,
            r.1 == reported(final(self)@, t as int).1,
    {
        if idle_ms >= self.idle_break_ms {
            self.session_start = None;
        } else if self.session_start.is_none() {
            self.session_start = Some(t);
            self.session_id = self.session_id + 1;
        }
        let app_s = String::from_str(app);
        let same_app = match &self.cur_app {
            Some(cur) => app_s == *cur,
            None => false,
        };
        if !same_app {
            self.cur_app = Some(app_s);
            self.app_start = t;
        }
        let session_s = match self.session_start {
            Some(s) => t - s,
            None => 0,
        };
        (session_s, t - self.app_start)
    }

    /// How many sessions have started so far.
    pub fn session_id(&self) -> (r: u64)
        ensures
            r == self@.session_id,
    {
        self.session_id
    }
}

// ---------- laws ----------

/// The app clock starts at the first observation and over again when another
/// app comes to the front, and keeps counting while the same app stays there.
pub proof fn lemma_app_clock(s: TrackerState, t: int, app: Seq<char>, idle_ms: int)
    ensures
        s.cur_app != Some(app) ==> reported(next_state(s, t, app, idle_ms), t).1 == 0,
        s.cur_app == Some(app) ==> reported(next_state(s, t, app, idle_ms), t).1 == t
            - s.app_start,
{
}

/// Input idle past the break ends the session (it reports 0 and keeps its
/// number); the next observation with input starts a new session, numbered
/// one higher, whose length starts at 0.
pub proof fn lemma_break_then_resume(
    s: TrackerState,
    t1: int,
    app1: Seq<char>,
    idle1: int,
    t2: int,
    app2: Seq<char>,
    idle2: int,
)
    requires
        idle1 >= s.idle_break_ms,
        idle2 < s.idle_break_ms,
    ensures
        ({
            let a = next_state(s, t1, app1, idle1);
            let b = next_state(a, t2, app2, idle2);
            &&& reported(a, t1).0 == 0
            &&& a.session_id == s.session_id
            &&& b.session_id == s.session_id + 1
            &&& b.session_start == Some(t2)
            &&& reported(b, t2).0 == 0
        }),
{
}

/// While input keeps coming, the session goes on: same number, and its
/// length is the time since it started.
pub proof fn lemma_session_continues(s: TrackerState, t: int, app: Seq<char>, idle_ms: int)
    requires
        s.session_start is Some,
        idle_ms < s.idle_break_ms,
    ensures
        next_state(s, t, app, idle_ms).session_id == s.session_id,
        reported(next_state(s, t, app, idle_ms), t).0 == t - s.session_start.unwrap(),
{
}

/// An observation: time, app in front, idle time in ms.
pub type Observation = (int, Seq<char>, int);

/// The state after a sequence of observations.
pub open spec fn observe_all(s: TrackerState, obs: Seq<Observation>) -> TrackerState
    decreases obs.len(),
{
    if obs.len() == 0 {
        s
    } else {
        let o = obs.last();
        next_state(observe_all(s, obs.drop_last()), o.0, o.1, o.2)
    }
}

/// How many observations of a sequence start a session: those with input
/// while no session was running.
pub open spec fn session_starts(s: TrackerState, obs: Seq<Observation>) -> nat
    decreases obs.len(),
{
    if obs.len() == 0 {
        0
    } else {
        let before = observe_all(s, obs.drop_last());
        let o = obs.last();
        session_starts(s, obs.drop_last()) + (if !breaks_session(before, o.2)
            && before.session_start is None {
            1nat
        } else {
            0
        })
    }
}

/// Session numbers count session starts: after any sequence of observations
/// the number has grown by exactly the number of sessions that started, and
/// the idle limit never changes.
pub proof fn lemma_session_numbers(s: TrackerState, obs: Seq<Observation>)
    ensures
        observe_all(s, obs).session_id == s.session_id + session_starts(s, obs),
        observe_all(s, obs).idle_break_ms == s.idle_break_ms,
    decreases obs.len(),
{
    if obs.len() > 0 {
        lemma_session_numbers(s, obs.drop_last());
    }
}

/// Input idle for at least the break reports no session and keeps the
/// session number, whatever the state before.
pub proof fn lemma_idle_reports_no_session(s: TrackerState, t: int, app: Seq<char>, idle_ms: int)
    requires
        idle_ms >= s.idle_break_ms,
    ensures
        reported(next_state(s, t, app, idle_ms), t).0 == 0,
        next_state(s, t, app, idle_ms).session_id == s.session_id,
{
}

/// Where the trailing run of observations with input begins: the index of
/// its first observation, or the length of `obs` when the last observation
/// had none.
pub open spec fn active_run_start(obs: Seq<Observation>, idle_break_ms: int) -> int
    decreases obs.len(),
{
    if obs.len() == 0 {
        0
    } else if obs.last().2 >= idle_break_ms {
        obs.len() as int
    } else {
        active_run_start(obs.drop_last(), idle_break_ms)
    }
}

/// Where the trailing run of observations of the last observation's app begins.
pub open spec fn app_run_start(obs: Seq<Observation>) -> int
    decreases obs.len(),
{
    if obs.len() <= 1 {
        0
    } else if obs[obs.len() - 2].1 != obs.last().1 {
        obs.len() - 1
    } else {
        app_run_start(obs.drop_last())
    }
}

/// From a tracker without a session, the session reported after a sequence of
/// observations is the time since the first observation of the trailing run
/// of observations with input, and there is none when the last observation
/// had no input. The session number grows by one exactly at the observation
/// that begins such a run.
pub proof fn lemma_session_is_active_run(s: TrackerState, obs: Seq<Observation>)
    requires
        s.session_start is None,
        obs.len() > 0,
    ensures
        0 <= active_run_start(obs, s.idle_break_ms as int) <= obs.len(),
        obs.last().2 < s.idle_break_ms ==> active_run_start(obs, s.idle_break_ms as int) < obs.len(),
        obs.last().2 >= s.idle_break_ms ==> observe_all(s, obs).session_start is None,
        obs.last().2 < s.idle_break_ms ==> observe_all(s, obs).session_start == Some(
            obs[active_run_start(obs, s.idle_break_ms as int)].0,
        ),
        obs.last().2 < s.idle_break_ms ==> reported(observe_all(s, obs), obs.last().0).0 == obs.last().0
            - obs[active_run_start(obs, s.idle_break_ms as int)].0,
        observe_all(s, obs).session_id == observe_all(s, obs.drop_last()).session_id + (if obs.last().2
            < s.idle_break_ms && active_run_start(obs, s.idle_break_ms as int) == obs.len() - 1 {
            1int
        } else {
            0
        }),
    decreases obs.len(),
{
    let b = s.idle_break_ms as int;
    let d = obs.drop_last();
    lemma_session_numbers(s, d);
    if obs.len() > 1 {
        lemma_session_is_active_run(s, d);
        let k = active_run_start(d, b);
        if d.last().2 < b {
            assert(obs[k] == d[k]);
        }
    } else {
        assert(active_run_start(d, b) == 0);
        assert(observe_all(s, d) == s);
    }
}

/// From a fresh tracker, the app time reported after a sequence of
/// observations is the time since the first observation of the trailing run
/// of observations of the same app.
pub proof fn lemma_app_time_is_app_run(s: TrackerState, obs: Seq<Observation>)
    requires
        s.cur_app is None,
        obs.len() > 0,
    ensures
        0 <= app_run_start(obs) < obs.len(),
        observe_all(s, obs).cur_app == Some(obs.last().1),
        observe_all(s, obs).app_start == obs[app_run_start(obs)].0,
        reported(observe_all(s, obs), obs.last().0).1 == obs.last().0 - obs[app_run_start(obs)].0,
    decreases obs.len(),
{
    let d = obs.drop_last();
    if obs.len() > 1 {
        lemma_app_time_is_app_run(s, d);
        assert(d.last() == obs[obs.len() - 2]);
        let k = app_run_start(d);
        assert(obs[k] == d[k]);
        let prev = observe_all(s, d);
        assert(observe_all(s, obs) == next_state(prev, obs.last().0, obs.last().1, obs.last().2));
        if obs[obs.len() - 2].1 == obs.last().1 {
            assert(prev.cur_app == Some(obs.last().1));
        } else {
            assert(prev.cur_app != Some(obs.last().1));
        }
    } else {
        assert(observe_all(s, d) == s);
    }
}

} // verus!
