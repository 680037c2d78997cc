use crate::backoff::{backoff_delays, exponential_backoff, next_delay};
use crate::config::{Config, ConfigError};
use crate::feed::{queued, JobFeed};
use crate::message::Message;
use backon::ExponentialBackoff;
use std::time::Duration;
use vstd::prelude::*;

verus! {

/// One observable step of a run, in the order in which the engine took them.
pub enum Effect {
    /// The `JobCount` event, with the number of pending URLs loaded.
    JobCount(nat),
    /// A tab took the URL from the feed and navigates to it.
    Dispatched(Seq<char>),
    /// A tab navigates to the URL again after a retryable failure.
    Retried(Seq<char>),
    /// A navigation to the URL succeeded.
    Navigated(Seq<char>),
    /// The store was asked to mark the URL visited.
    Marked(Seq<char>),
    /// The `CompleteJob` event for the URL.
    Completed(Seq<char>),
    /// The `Error` event for the URL.
    Failed(Seq<char>),
    /// The tab with this index left its loop and was released.
    Released(nat),
    /// Cancellation was requested.
    Cancelled,
    /// Teardown ran; whether the store was asked to clean itself up.
    TornDown(bool),
}

/// What a tab is doing, as the engine sees it.
pub enum Phase {
    /// Holds its tab and is about to pull a URL.
    Ready,
    /// Navigates to `url`, after `failures` retryable failures on it.
    Navigating { url: Seq<char>, failures: nat },
    /// Navigated to `url`; the store is marking it visited.
    Marking { url: Seq<char> },
    /// Left its loop; its tab is released.
    Exited,
}

/// The executable counterpart of `Phase`, for callers that drive the tabs.
#[derive(Debug, Clone, Copy, PartialEq, Eq, Structural)]
pub enum Stage {
    Ready,
    Navigating,
    Marking,
    Exited,
}

/// The outcome of a pull.
#[derive(Debug)]
pub enum Pull {
    /// Navigate to this URL.
    Job(String),
    /// Cancellation was requested: the tab stops and is released.
    Cancelled,
    /// The feed is empty: the tab stops and is released.
    Drained,
}

/// What follows a failed navigation.
#[derive(Debug)]
pub enum Retry {
    /// Wait this long, then navigate to the same URL again.
    Wait(Duration),
    /// The tab gives up: send this `Error` event; the tab is released.
    GiveUp(Message),
}

/// What the caller does to finish a run.
#[derive(Debug)]
pub struct Teardown {
    /// Ask the store to delete itself, as no pending URL is left.
    pub clean_store: bool,
    /// The `Finished` event.
    pub message: Message,
}

/// Where a run stands. An engine exists only once its run has started.
#[derive(Debug, Clone, Copy, PartialEq, Eq, Structural)]
pub enum RunState {
    /// Tabs work through the feed.
    Running,
    /// Cancellation was requested: tabs stop at their next pull.
    Draining,
    /// Teardown has run.
    Finished,
}

/// Why a run cannot start.
#[derive(Debug, PartialEq, Eq, Structural)]
pub enum StartError {
    /// The configuration is refused.
    Config(ConfigError),
    /// A URL occurs twice among the pending ones.
    DuplicateUrl,
}

enum Worker {
    Ready,
    Navigating { url: String, failures: usize, backoff: ExponentialBackoff },
    Marking { url: String },
    Exited,
}

impl Worker {
    spec fn phase(&self) -> Phase {
        match self {
            Worker::Ready => Phase::Ready,
            Worker::Navigating { url, failures, .. } => Phase::Navigating {
                url: url@,
                failures: *failures as nat,
            },
            Worker::Marking { url } => Phase::Marking { url: url@ },
            Worker::Exited => Phase::Exited,
        }
    }

    /// A navigating tab has as many retries left as its backoff has delays.
    spec fn budget_ok(&self, max_retries: nat) -> bool {
        match self {
            Worker::Navigating { failures, backoff, .. } => {
                &&& *failures <= max_retries
                &&& backoff_delays(*backoff).len() == max_retries - *failures
            },
            _ => true,
        }
    }
}

/// The URL a tab holds, while it navigates to it or has it marked.
pub open spec fn held(p: Phase) -> Option<Seq<char>> {
    match p {
        Phase::Navigating { url, .. } => Some(url),
        Phase::Marking { url } => Some(url),
        _ => None,
    }
}

/// The URL a tab navigates to, if any.
pub open spec fn navigating(p: Phase) -> Option<Seq<char>> {
    match p {
        Phase::Navigating { url, .. } => Some(url),
        _ => None,
    }
}

/// Every tab of the pool has left its loop.
pub open spec fn all_exited(phases: Seq<Phase>) -> bool {
    forall|w: int| 0 <= w < phases.len() ==> #[trigger] phases[w] is Exited
}

/// No URL was dispatched twice.
pub open spec fn dispatched_once(t: Seq<Effect>) -> bool {
    forall|i: int, j: int|
        0 <= i < t.len() && 0 <= j < t.len() && i != j && #[trigger] t[i] is Dispatched
            && #[trigger] t[j] is Dispatched ==> about(t[i]) != about(t[j])
}

/// How many tabs have not left their loop, that is, hold a browser tab.
pub open spec fn live_count(phases: Seq<Phase>) -> nat
    decreases phases.len(),
{
    if phases.len() == 0 {
        0
    } else {
        live_count(phases.drop_last()) + if phases.last() is Exited {
            0nat
        } else {
            1nat
        }
    }
}

/// No URL occurs twice.
pub open spec fn distinct(s: Seq<Seq<char>>) -> bool {
    forall|a: int, b: int| 0 <= a < s.len() && 0 <= b < s.len() && a != b ==> s[a] != s[b]
}

/// The views of a list of strings.
pub open spec fn views(v: Seq<String>) -> Seq<Seq<char>> {
    v.map_values(|s: String| s@)
}

/// A navigation attempt (the first one or a retry).
pub open spec fn is_navigation(e: Effect) -> bool {
    e is Dispatched || e is Retried
}

/// The URL an effect is about, if any.
pub open spec fn about(e: Effect) -> Option<Seq<char>> {
    match e {
        Effect::Dispatched(u) => Some(u),
        Effect::Retried(u) => Some(u),
        Effect::Navigated(u) => Some(u),
        Effect::Marked(u) => Some(u),
        Effect::Completed(u) => Some(u),
        Effect::Failed(u) => Some(u),
        _ => None,
    }
}

/// The dispatch engine: the shared feed of pending URLs, the pool of tabs and
/// the cancellation and teardown protocol of one run.
pub struct Engine {
    feed: JobFeed,
    workers: Vec<Worker>,
    max_retries: usize,
    backoff_base_ms: u64,
    pause_secs: u64,
    cancelled: bool,
    finished: bool,
    loaded: Ghost<Seq<Seq<char>>>,
    taken: Ghost<nat>,
    trace: Ghost<Seq<Effect>>,
}

impl Engine {
    /// Every step the run has taken so far, the first one first.
    pub closed spec fn trace(&self) -> Seq<Effect> {
        self.trace@
    }

    /// The pending URLs loaded at startup, in feed order.
    pub closed spec fn loaded(&self) -> Seq<Seq<char>> {
        self.loaded@
    }

    /// The URLs still waiting in the feed, front first.
    pub closed spec fn pending(&self) -> Seq<Seq<char>> {
        queued(self.feed)
    }

    /// What each tab of the pool is doing.
    pub closed spec fn phases(&self) -> Seq<Phase> {
        self.workers@.map_values(|w: Worker| w.phase())
    }

    pub closed spec fn max_retries(&self) -> nat {
        self.max_retries as nat
    }

    pub closed spec fn pause_secs(&self) -> nat {
        self.pause_secs as nat
    }

    pub closed spec fn is_cancelled(&self) -> bool {
        self.cancelled
    }

    pub closed spec fn is_finished(&self) -> bool {
        self.finished
    }

    /// The delays the tab with index `w` has left for retries of its URL.
    pub closed spec fn delays_left(&self, w: int) -> Seq<Duration> {
        match self.workers@[w] {
            Worker::Navigating { backoff, .. } => backoff_delays(backoff),
            _ => Seq::empty(),
        }
    }

    spec fn phase_at(&self, w: int) -> Phase {
        self.workers@[w].phase()
    }

    spec fn taken_urls(&self) -> Seq<Seq<char>> {
        self.loaded@.take(self.taken@ as int)
    }

    #[verifier::opaque]
    spec fn feed_ok(&self) -> bool {
        &&& distinct(self.loaded@)
        &&& self.taken@ <= self.loaded@.len()
        &&& queued(self.feed) == self.loaded@.skip(self.taken@ as int)
    }

    #[verifier::opaque]
    spec fn tabs_ok(&self) -> bool {
        &&& forall|w: int|
            0 <= w < self.workers@.len() ==> #[trigger] self.workers@[w].budget_ok(
                self.max_retries as nat,
            )
        &&& forall|w: int|
            0 <= w < self.workers@.len() && held(#[trigger] self.phase_at(w)) is Some
                ==> self.taken_urls().contains(held(self.phase_at(w))->0)
        &&& forall|w1: int, w2: int|
            0 <= w1 < self.workers@.len() && 0 <= w2 < self.workers@.len() && w1 != w2 && held(
                #[trigger] self.phase_at(w1),
            ) is Some ==> held(self.phase_at(w1)) != held(#[trigger] self.phase_at(w2))
    }

    #[verifier::opaque]
    spec fn trace_ok(&self) -> bool {
        let t = self.trace@;
        &&& t.len() >= 1
        &&& t[0] == Effect::JobCount(self.loaded@.len())
        &&& forall|i: int| 1 <= i < t.len() ==> !(#[trigger] t[i] is JobCount)
        &&& forall|i: int|
            0 <= i < t.len() && about(#[trigger] t[i]) is Some ==> self.taken_urls().contains(
                about(t[i])->0,
            )
        &&& dispatched_once(t)
    }

    /// Marks and errors: a mark directly follows a successful navigation to
    /// its URL, no URL is marked or given up twice or both, and no tab works
    /// on a URL that was marked or given up.
    #[verifier::opaque]
    spec fn outcomes_ok(&self) -> bool {
        let t = self.trace@;
        &&& forall|i: int|
            0 <= i < t.len() && #[trigger] t[i] is Marked ==> 1 <= i && t[i - 1]
                == Effect::Navigated(about(t[i])->0)
        &&& forall|i: int, w: int|
            0 <= i < t.len() && 0 <= w < self.workers@.len() && (#[trigger] t[i] is Marked
                || t[i] is Failed) ==> navigating(#[trigger] self.phase_at(w)) != about(t[i])
        &&& forall|i: int, w: int|
            0 <= i < t.len() && 0 <= w < self.workers@.len() && #[trigger] t[i] is Failed
                ==> held(#[trigger] self.phase_at(w)) != about(t[i])
        &&& forall|i: int, j: int|
            0 <= i < t.len() && 0 <= j < t.len() && i != j && (#[trigger] t[i] is Marked
                || t[i] is Failed) && (#[trigger] t[j] is Marked || t[j] is Failed) ==> about(
                t[i],
            ) != about(t[j])
        &&& forall|j: int|
            0 <= j < t.len() && #[trigger] t[j] is Completed ==> exists|i: int|
                0 <= i < j && #[trigger] t[i] == Effect::Marked(about(t[j])->0)
        &&& forall|w: int|
            0 <= w < self.workers@.len() && #[trigger] self.phase_at(w) is Marking ==> exists|
                i: int,
            |
                0 <= i < t.len() && #[trigger] t[i] == Effect::Marked(
                    held(self.phase_at(w))->0,
                )
    }

    /// Cancellation and teardown, and a run in which nothing was dispatched.
    #[verifier::opaque]
    spec fn lifecycle_ok(&self) -> bool {
        let t = self.trace@;
        &&& !self.cancelled ==> forall|i: int| 0 <= i < t.len() ==> !(#[trigger] t[i] is Cancelled)
        &&& forall|i: int, j: int|
            0 <= i < j < t.len() && #[trigger] t[i] is Cancelled ==> !(#[trigger] t[j] is Dispatched)
        &&& !self.finished ==> forall|i: int| 0 <= i < t.len() ==> !(#[trigger] t[i] is TornDown)
        &&& (forall|i: int| 0 <= i < t.len() ==> !(#[trigger] t[i] is Dispatched)) ==> {
            &&& forall|i: int| 0 <= i < t.len() ==> about(#[trigger] t[i]) is None
            &&& forall|w: int| 0 <= w < self.workers@.len() ==> held(#[trigger] self.phase_at(w)) is None
        }
    }

    /// The engine's invariant, established by `start` and kept by every method.
    pub closed spec fn wf(&self) -> bool {
        &&& self.feed_ok()
        &&& self.tabs_ok()
        &&& self.trace_ok()
        &&& self.outcomes_ok()
        &&& self.lifecycle_ok()
    }

    /// A step by the tab with index `w` leaves every other tab, the loaded
    /// URLs, the configuration and the run's flags as they were.
    pub open spec fn others_unchanged(&self, old_e: &Engine, w: int) -> bool {
        &&& self.phases().len() == old_e.phases().len()
        &&& forall|v: int|
            0 <= v < self.phases().len() && v != w ==> #[trigger] self.phases()[v]
                == old_e.phases()[v] && self.delays_left(v) == old_e.delays_left(v)
        &&& self.loaded() == old_e.loaded()
        &&& self.max_retries() == old_e.max_retries()
        &&& self.pause_secs() == old_e.pause_secs()
        &&& self.is_cancelled() == old_e.is_cancelled()
        &&& self.is_finished() == old_e.is_finished()
    }

    /// A navigating tab has spent `failures` of its retries, and its backoff
    /// holds one delay for each retry it has left.
    pub proof fn lemma_budget(&self, w: int)
        requires
            self.wf(),
            0 <= w < self.phases().len(),
            self.phases()[w] is Navigating,
        ensures
            self.phases()[w]->Navigating_failures <= self.max_retries(),
            self.delays_left(w).len() + self.phases()[w]->Navigating_failures == self.max_retries(),
    {
        reveal(Engine::feed_ok);
        reveal(Engine::tabs_ok);
        reveal(Engine::trace_ok);
        reveal(Engine::outcomes_ok);
        reveal(Engine::lifecycle_ok);
        self.lemma_phases(w);
        assert(self.workers@[w].budget_ok(self.max_retries as nat));
    }

    /// The stage of the tab with index `w`.
    pub fn stage(&self, w: usize) -> (r: Stage)
        requires
            w < self.phases().len(),
        ensures
            r == Stage::Ready <==> self.phases()[w as int] is Ready,
            r == Stage::Navigating <==> self.phases()[w as int] is Navigating,
            r == Stage::Marking <==> self.phases()[w as int] is Marking,
            r == Stage::Exited <==> self.phases()[w as int] is Exited,
    {
        proof {
            self.lemma_phases(w as int);
        }
        match &self.workers[w] {
            Worker::Ready => Stage::Ready,
            Worker::Navigating { .. } => Stage::Navigating,
            Worker::Marking { .. } => Stage::Marking,
            Worker::Exited => Stage::Exited,
        }
    }

    /// Number of tabs in the pool, live or released.
    pub fn pool_size(&self) -> (r: usize)
        ensures
            r == self.phases().len(),
    {
        self.workers.len()
    }

    /// Where the run stands.
    pub fn run_state(&self) -> (r: RunState)
        ensures
            self.is_finished() ==> r == RunState::Finished,
            !self.is_finished() && self.is_cancelled() ==> r == RunState::Draining,
            !self.is_finished() && !self.is_cancelled() ==> r == RunState::Running,
    {
        if self.finished {
            RunState::Finished
        } else if self.cancelled {
            RunState::Draining
        } else {
            RunState::Running
        }
    }

    /// How many tabs of the pool are live, each holding one browser tab; never
    /// more than the pool size.
    pub fn live_tabs(&self) -> (r: usize)
        ensures
            r == live_count(self.phases()),
            r <= self.phases().len(),
    {
        let n = self.workers.len();
        let mut live: usize = 0;
        let mut i: usize = 0;
        while i < n
            invariant
                n == self.workers@.len(),
                n == self.phases().len(),
                i <= n,
                live <= i,
                live == live_count(self.phases().take(i as int)),
            decreases n - i,
        {
            proof {
                self.lemma_phases(i as int);
                assert(self.phases().take(i as int + 1).drop_last() =~= self.phases().take(i as int));
            }
            match &self.workers[i] {
                Worker::Exited => {},
                _ => {
                    live = live + 1;
                },
            }
            i += 1;
        }
        proof {
            assert(self.phases().take(n as int) =~= self.phases());
        }
        live
    }

    /// Whether every tab of the pool has left its loop.
    pub fn all_released(&self) -> (r: bool)
        ensures
            r == all_exited(self.phases()),
    {
        let n = self.workers.len();
        let mut i: usize = 0;
        while i < n
            invariant
                n == self.workers@.len(),
                i <= n,
                forall|v: int| 0 <= v < i ==> #[trigger] self.phases()[v] is Exited,
            decreases n - i,
        {
            proof {
                self.lemma_phases(i as int);
            }
            match &self.workers[i] {
                Worker::Exited => {},
                _ => {
                    return false;
                },
            }
            i += 1;
        }
        proof {
            if n > 0 {
                self.lemma_phases(0);
            }
        }
        true
    }

    /// Starts a run: loads the pending URLs into the feed, gives the pool
    /// `config.tab_count` tabs, and returns the `JobCount` event.
    pub fn start(config: &Config, pending: Vec<String>) -> (r: Result<(Engine, Message), StartError>)
        ensures
            !config.valid() ==> r == Err::<(Engine, Message), StartError>(
                StartError::Config(ConfigError::NoTabs),
            ),
            config.valid() && !distinct(views(pending@)) ==> r == Err::<
                (Engine, Message),
                StartError,
            >(StartError::DuplicateUrl),
            config.valid() && distinct(views(pending@)) ==> r is Ok,
            r matches Ok((e, m)) ==> {
                &&& e.wf()
                &&& m == Message::JobCount(pending.len())
                &&& e.loaded() == views(pending@)
                &&& e.pending() == views(pending@)
                &&& e.trace() == seq![Effect::JobCount(pending.len() as nat)]
                &&& e.phases().len() == config.tab_count
                &&& forall|w: int| 0 <= w < e.phases().len() ==> e.phases()[w] == Phase::Ready
                &&& e.max_retries() == config.max_retries
                &&& e.pause_secs() == config.wait_for_navigation
                &&& !e.is_cancelled()
                &&& !e.is_finished()
            },
    {
        if let Err(err) = config.validate() {
            return Err(StartError::Config(err));
        }
        if !Engine::all_distinct(&pending) {
            return Err(StartError::DuplicateUrl);
        }
        let ghost loaded = views(pending@);
        let mut feed = JobFeed::new();
        let n = pending.len();
        let mut i: usize = 0;
        while i < n
            invariant
                n == pending.len(),
                loaded == views(pending@),
                i <= n,
                queued(feed) == loaded.take(i as int),
            decreases n - i,
        {
            feed.push(pending[i].clone());
            assert(loaded.take(i as int + 1) =~= loaded.take(i as int).push(loaded[i as int]));
            i += 1;
        }
        assert(loaded.take(n as int) =~= loaded);
        assert(loaded.skip(0) =~= loaded);
        let mut workers: Vec<Worker> = Vec::new();
        let mut k: usize = 0;
        while k < config.tab_count
            invariant
                k <= config.tab_count,
                workers@.len() == k,
                forall|w: int| 0 <= w < k ==> workers@[w] is Ready,
            decreases config.tab_count - k,
        {
            workers.push(Worker::Ready);
            k += 1;
        }
        let ghost first = seq![Effect::JobCount(n as nat)];
        let e = Engine {
            feed,
            workers,
            max_retries: config.max_retries,
            backoff_base_ms: config.backoff_base_ms,
            pause_secs: config.wait_for_navigation,
            cancelled: false,
            finished: false,
            loaded: Ghost(loaded),
            taken: Ghost(0nat),
            trace: Ghost(first),
        };
        assert forall|w: int| 0 <= w < e.phases().len() implies e.phases()[w] == Phase::Ready by {
            e.lemma_phases(w);
        }
        proof {
            reveal(Engine::feed_ok);
        reveal(Engine::tabs_ok);
        reveal(Engine::trace_ok);
        reveal(Engine::outcomes_ok);
        reveal(Engine::lifecycle_ok);
        }
        Ok((e, Message::JobCount(n)))
    }

    fn all_distinct(urls: &Vec<String>) -> (r: bool)
        ensures
            r == distinct(views(urls@)),
    {
        let n = urls.len();
        let mut i: usize = 0;
        while i < n
            invariant
                n == urls.len(),
                i <= n,
                forall|a: int, b: int| 0 <= a < i && 0 <= b < i && a != b ==> urls@[a]@ != urls@[b]@,
            decreases n - i,
        {
            let mut j: usize = 0;
            while j < i
                invariant
                    n == urls.len(),
                    i < n,
                    j <= i,
                    forall|a: int, b: int|
                        0 <= a < i && 0 <= b < i && a != b ==> urls@[a]@ != urls@[b]@,
                    forall|a: int| 0 <= a < j ==> urls@[a]@ != urls@[i as int]@,
                decreases i - j,
            {
                if urls[j] == urls[i] {
                    assert(views(urls@)[j as int] == views(urls@)[i as int]);
                    return false;
                }
                j += 1;
            }
            i += 1;
        }
        assert forall|a: int, b: int|
            0 <= a < views(urls@).len() && 0 <= b < views(urls@).len() && a != b implies views(
                urls@,
            )[a] != views(urls@)[b] by {
            assert(urls@[a]@ != urls@[b]@);
        }
        true
    }

    /// Takes the next URL for the tab with index `w`, which is ready.
    ///
    /// Cancellation is looked at first: once it was requested, the tab stops
    /// without taking anything. Otherwise the tab takes the front of the feed
    /// and navigates to it with a fresh retry budget, or stops if the feed is
    /// empty. The feed is filled once, before any pull, so an empty feed stays
    /// empty and a pull never waits.
    pub fn pull(&mut self, w: usize) -> (r: Pull)
        requires
            old(self).wf(),
            w < old(self).phases().len(),
            old(self).phases()[w as int] == Phase::Ready,
        ensures
            final(self).wf(),
            final(self).others_unchanged(old(self), w as int),
            old(self).is_cancelled() ==> {
                &&& r is Cancelled
                &&& final(self).phases()[w as int] == Phase::Exited
                &&& final(self).pending() == old(self).pending()
                &&& final(self).trace() == old(self).trace().push(Effect::Released(w as nat))
            },
            !old(self).is_cancelled() && old(self).pending().len() == 0 ==> {
                &&& r is Drained
                &&& final(self).phases()[w as int] == Phase::Exited
                &&& final(self).pending() == old(self).pending()
                &&& final(self).trace() == old(self).trace().push(Effect::Released(w as nat))
            },
            !old(self).is_cancelled() && old(self).pending().len() > 0 ==> {
                &&& r matches Pull::Job(u)
                &&& u@ == old(self).pending()[0]
                &&& final(self).pending() == old(self).pending().drop_first()
                &&& final(self).phases()[w as int] == (Phase::Navigating { url: u@, failures: 0 })
                &&& final(self).delays_left(w as int).len() == old(self).max_retries()
                &&& final(self).trace() == old(self).trace().push(Effect::Dispatched(u@))
            },
    {
        proof {
            old(self).lemma_phases(w as int);
        }
        if self.cancelled {
            self.release(w);
            return Pull::Cancelled;
        }
        let ghost e0 = *self;
        match self.feed.pull() {
            None => {
                proof {
                    self.lemma_same_feed(&e0);
                }
                self.release(w);
                Pull::Drained
            },
            Some(url) => {
                let backoff = exponential_backoff(self.max_retries, self.backoff_base_ms);
                self.workers.set(w, Worker::Navigating { url: url.clone(), failures: 0, backoff });
                self.taken = Ghost(self.taken@ + 1);
                self.trace = Ghost(self.trace@.push(Effect::Dispatched(url@)));
                proof {
                    self.lemma_pulled(&e0, w as int, url@);
                }
                Pull::Job(url)
            },
        }
    }

    /// Decides what follows a failed navigation of the tab with index `w`.
    ///
    /// A retryable failure is retried after the next delay of the tab's
    /// backoff, as long as one is left; a failure that is not retryable, or one
    /// that comes when the budget is spent, makes the tab give up the URL with
    /// one `Error` event and leave its loop. The URL stays pending in the store.
    pub fn navigation_failed(&mut self, w: usize, retryable: bool, error: String) -> (r: Retry)
        requires
            old(self).wf(),
            w < old(self).phases().len(),
            old(self).phases()[w as int] is Navigating,
        ensures
            final(self).wf(),
            final(self).others_unchanged(old(self), w as int),
            final(self).pending() == old(self).pending(),
            ({
                let u = old(self).phases()[w as int]->Navigating_url;
                let f = old(self).phases()[w as int]->Navigating_failures;
                let delays = old(self).delays_left(w as int);
                &&& retryable && delays.len() > 0 ==> {
                    &&& r == Retry::Wait(delays[0])
                    &&& final(self).phases()[w as int] == (Phase::Navigating { url: u, failures: f + 1 })
                    &&& final(self).delays_left(w as int) == delays.drop_first()
                    &&& final(self).trace() == old(self).trace().push(Effect::Retried(u))
                }
                &&& !(retryable && delays.len() > 0) ==> {
                    &&& r matches Retry::GiveUp(Message::Error { url, message })
                    &&& url@ == u
                    &&& message@ == error@
                    &&& final(self).phases()[w as int] == Phase::Exited
                    &&& final(self).trace() == old(self).trace().push(Effect::Failed(u)).push(
                        Effect::Released(w as nat),
                    )
                }
            }),
    {
        let ghost e0 = *self;
        proof {
            e0.lemma_phases(w as int);
        }
        let mut cur = Worker::Exited;
        self.workers.set_and_swap(w, &mut cur);
        match cur {
            Worker::Navigating { url, failures, mut backoff } => {
                if retryable {
                    proof {
                        e0.lemma_budget(w as int);
                    }
                    if let Some(d) = next_delay(&mut backoff) {
                        let ghost u = url@;
                        self.workers.set(
                            w,
                            Worker::Navigating { url, failures: failures + 1, backoff },
                        );
                        self.trace = Ghost(self.trace@.push(Effect::Retried(u)));
                        proof {
                            assert(self.workers@ =~= e0.workers@.update(
                                w as int,
                                self.workers@[w as int],
                            ));
                            self.lemma_retried(&e0, w as int);
                        }
                        return Retry::Wait(d);
                    }
                }
                self.trace = Ghost(self.trace@.push(Effect::Failed(url@)));
                proof {
                    self.lemma_failed(&e0, w as int);
                }
                self.release(w);
                Retry::GiveUp(Message::Error { url, message: error })
            },
            _ => {
                proof {
                    assert(false);
                }
                Retry::GiveUp(Message::Finished)
            },
        }
    }

    /// Records a successful navigation of the tab with index `w`, and returns
    /// the URL that the store must now mark visited.
    pub fn navigation_succeeded(&mut self, w: usize) -> (r: String)
        requires
            old(self).wf(),
            w < old(self).phases().len(),
            old(self).phases()[w as int] is Navigating,
        ensures
            final(self).wf(),
            final(self).others_unchanged(old(self), w as int),
            final(self).pending() == old(self).pending(),
            r@ == old(self).phases()[w as int]->Navigating_url,
            final(self).phases()[w as int] == (Phase::Marking { url: r@ }),
            final(self).trace() == old(self).trace().push(Effect::Navigated(r@)).push(
                Effect::Marked(r@),
            ),
    {
        let ghost e0 = *self;
        proof {
            e0.lemma_phases(w as int);
        }
        let mut cur = Worker::Exited;
        self.workers.set_and_swap(w, &mut cur);
        match cur {
            Worker::Navigating { url, .. } => {
                let r = url.clone();
                self.workers.set(w, Worker::Marking { url });
                self.trace = Ghost(self.trace@.push(Effect::Navigated(r@)).push(Effect::Marked(r@)));
                proof {
                    assert(self.workers@ =~= e0.workers@.update(w as int, self.workers@[w as int]));
                    self.lemma_succeeded(&e0, w as int);
                }
                r
            },
            _ => {
                proof {
                    assert(false);
                }
                String::new()
            },
        }
    }

    /// Records that the store was asked to mark the URL of the tab with index
    /// `w` visited (whatever it answered: a failed write leaves the URL to be
    /// visited again by a later run). Returns the `CompleteJob` event and the
    /// seconds the tab pauses before its next pull.
    pub fn visit_recorded(&mut self, w: usize) -> (r: (Message, u64))
        requires
            old(self).wf(),
            w < old(self).phases().len(),
            old(self).phases()[w as int] is Marking,
        ensures
            final(self).wf(),
            final(self).others_unchanged(old(self), w as int),
            final(self).pending() == old(self).pending(),
            r.0 is CompleteJob,
            r.1 == old(self).pause_secs(),
            final(self).phases()[w as int] == Phase::Ready,
            final(self).trace() == old(self).trace().push(
                Effect::Completed(old(self).phases()[w as int]->Marking_url),
            ),
    {
        let ghost e0 = *self;
        proof {
            e0.lemma_phases(w as int);
        }
        let mut cur = Worker::Ready;
        self.workers.set_and_swap(w, &mut cur);
        let ghost u = cur->Marking_url@;
        self.trace = Ghost(self.trace@.push(Effect::Completed(u)));
        proof {
            self.lemma_recorded(&e0, w as int);
        }
        (Message::CompleteJob, self.pause_secs)
    }

    /// Requests cancellation. It is never withdrawn: every later pull stops
    /// its tab, while navigations already under way run to their end.
    pub fn cancel(&mut self)
        requires
            old(self).wf(),
        ensures
            final(self).wf(),
            final(self).is_cancelled(),
            final(self).is_finished() == old(self).is_finished(),
            final(self).phases() == old(self).phases(),
            final(self).pending() == old(self).pending(),
            final(self).loaded() == old(self).loaded(),
            forall|w: int| 0 <= w < old(self).phases().len() ==> final(self).delays_left(w)
                == old(self).delays_left(w),
            final(self).trace() == old(self).trace().push(Effect::Cancelled),
    {
        let ghost e0 = *self;
        self.cancelled = true;
        self.trace = Ghost(self.trace@.push(Effect::Cancelled));
        proof {
            self.lemma_signalled(&e0, Effect::Cancelled);
        }
    }

    /// Tears the run down, once: after cancellation, or once every tab has
    /// left its loop. `remaining` is the store's count of URLs still pending;
    /// the store is asked to clean itself up exactly when it is zero. Asked
    /// again, or too early, it does nothing.
    pub fn finish(&mut self, remaining: u64) -> (r: Option<Teardown>)
        requires
            old(self).wf(),
        ensures
            final(self).wf(),
            final(self).is_cancelled() == old(self).is_cancelled(),
            final(self).phases() == old(self).phases(),
            final(self).pending() == old(self).pending(),
            final(self).loaded() == old(self).loaded(),
            old(self).is_finished() || !(old(self).is_cancelled() || all_exited(old(self).phases()))
                ==> {
                &&& r is None
                &&& final(self).is_finished() == old(self).is_finished()
                &&& final(self).trace() == old(self).trace()
            },
            !old(self).is_finished() && (old(self).is_cancelled() || all_exited(old(self).phases()))
                ==> {
                &&& r matches Some(td)
                &&& td.clean_store == (remaining == 0)
                &&& td.message is Finished
                &&& final(self).is_finished()
                &&& final(self).trace() == old(self).trace().push(Effect::TornDown(remaining == 0))
            },
    {
        if self.finished {
            return None;
        }
        if !self.cancelled && !self.all_released() {
            return None;
        }
        let ghost e0 = *self;
        let clean_store = remaining == 0;
        self.finished = true;
        self.trace = Ghost(self.trace@.push(Effect::TornDown(clean_store)));
        proof {
            self.lemma_signalled(&e0, Effect::TornDown(clean_store));
        }
        Some(Teardown { clean_store, message: Message::Finished })
    }

    /// Releases the tab with index `w`.
    fn release(&mut self, w: usize)
        requires
            old(self).wf(),
            w < old(self).workers@.len(),
            held(old(self).phase_at(w as int)) is None,
        ensures
            final(self).wf(),
            final(self).others_unchanged(old(self), w as int),
            final(self).phases()[w as int] == Phase::Exited,
            final(self).pending() == old(self).pending(),
            final(self).trace() == old(self).trace().push(Effect::Released(w as nat)),
    {
        let ghost e0 = *self;
        self.workers.set(w, Worker::Exited);
        self.trace = Ghost(self.trace@.push(Effect::Released(w as nat)));
        proof {
            self.lemma_released(&e0, w as int);
        }
    }
}

impl Engine {
    proof fn lemma_phases(&self, w: int)
        requires
            0 <= w < self.workers@.len(),
        ensures
            self.phases().len() == self.workers@.len(),
            self.phases()[w] == self.phase_at(w),
    {
    }

    proof fn lemma_pulled(&self, e0: &Engine, w: int, u: Seq<char>)
        requires
            e0.wf(),
            self.workers@[w] is Navigating,
            !e0.cancelled,
            0 <= w < e0.workers@.len(),
            e0.phase_at(w) is Ready,
            queued(e0.feed).len() > 0,
            u == queued(e0.feed)[0],
            queued(self.feed) == queued(e0.feed).drop_first(),
            self.workers@ == e0.workers@.update(w, self.workers@[w]),
            self.phase_at(w) == (Phase::Navigating { url: u, failures: 0 }),
            self.workers@[w].budget_ok(e0.max_retries as nat),
            self.taken@ == e0.taken@ + 1,
            self.trace@ == e0.trace@.push(Effect::Dispatched(u)),
            self.loaded == e0.loaded,
            self.max_retries == e0.max_retries,
            self.pause_secs == e0.pause_secs,
            self.cancelled == e0.cancelled,
            self.finished == e0.finished,
        ensures
            self.wf(),
            self.others_unchanged(e0, w),
            self.phases()[w] == self.phase_at(w),
            self.delays_left(w) == backoff_delays(self.workers@[w]->Navigating_backoff),
    {
        reveal(Engine::feed_ok);
        reveal(Engine::tabs_ok);
        reveal(Engine::trace_ok);
        reveal(Engine::outcomes_ok);
        reveal(Engine::lifecycle_ok);
        self.lemma_phases(w);
        let s = self.loaded@;
        let n = e0.taken@;
        assert(s.skip(n as int).drop_first() =~= s.skip(n + 1 as int));
        assert(u == s[n as int]);
        assert(self.taken_urls() =~= e0.taken_urls().push(u));
        assert(!e0.taken_urls().contains(u)) by {
            if e0.taken_urls().contains(u) {
                let k = choose|k: int| 0 <= k < e0.taken_urls().len() && e0.taken_urls()[k] == u;
                assert(s[k] == s[n as int]);
            }
        }
        assert forall|x: Seq<char>| e0.taken_urls().contains(x) implies self.taken_urls().contains(
            x,
        ) by {
            let k = choose|k: int| 0 <= k < e0.taken_urls().len() && e0.taken_urls()[k] == x;
            assert(self.taken_urls()[k] == x);
        }
        assert(self.taken_urls()[n as int] == u);
        assert forall|v: int| 0 <= v < self.workers@.len() && v != w implies self.phase_at(v)
            == e0.phase_at(v) by {}
        assert forall|v: int|
            0 <= v < self.phases().len() && v != w implies #[trigger] self.phases()[v]
                == e0.phases()[v] && self.delays_left(v) == e0.delays_left(v) by {
            self.lemma_phases(v);
            e0.lemma_phases(v);
        }
        let t = self.trace@;
        let t0 = e0.trace@;
        assert(t[t.len() - 1] == Effect::Dispatched(u));
        assert forall|i: int, j: int|
            0 <= i < t.len() && 0 <= j < t.len() && i != j && #[trigger] t[i] is Dispatched
                && #[trigger] t[j] is Dispatched implies about(t[i]) != about(t[j]) by {
            if i < t0.len() && j < t0.len() {
                assert(t[i] == t0[i]);
                assert(t[j] == t0[j]);
            } else if i < t0.len() {
                assert(t[i] == t0[i]);
                assert(e0.taken_urls().contains(about(t0[i])->0));
            } else {
                assert(t[j] == t0[j]);
                assert(e0.taken_urls().contains(about(t0[j])->0));
            }
        }
        assert forall|i: int| 0 <= i < t.len() && about(#[trigger] t[i]) is Some implies self.taken_urls().contains(
            about(t[i])->0,
        ) by {
            if i < t0.len() {
                assert(t[i] == t0[i]);
            }
        }
        assert forall|w1: int, w2: int|
            0 <= w1 < self.workers@.len() && 0 <= w2 < self.workers@.len() && w1 != w2 && held(
                #[trigger] self.phase_at(w1),
            ) is Some implies held(self.phase_at(w1)) != held(#[trigger] self.phase_at(w2)) by {
            if w1 == w {
                assert(held(e0.phase_at(w2)) is Some ==> e0.taken_urls().contains(held(e0.phase_at(w2))->0));
            } else if w2 == w {
                assert(e0.taken_urls().contains(held(e0.phase_at(w1))->0));
            }
        }
        assert forall|i: int, v: int|
            0 <= i < t.len() && 0 <= v < self.workers@.len() && (#[trigger] t[i] is Marked
                || t[i] is Failed) implies navigating(#[trigger] self.phase_at(v)) != about(t[i]) by {
            assert(i < t0.len());
            assert(t[i] == t0[i]);
            assert(e0.taken_urls().contains(about(t0[i])->0));
        }
        assert forall|i: int, v: int|
            0 <= i < t.len() && 0 <= v < self.workers@.len() && #[trigger] t[i] is Failed
                implies held(#[trigger] self.phase_at(v)) != about(t[i]) by {
            assert(i < t0.len());
            assert(t[i] == t0[i]);
            assert(e0.taken_urls().contains(about(t0[i])->0));
        }
        assert forall|i: int, j: int|
            0 <= i < t.len() && 0 <= j < t.len() && i != j && (#[trigger] t[i] is Marked
                || t[i] is Failed) && (#[trigger] t[j] is Marked || t[j] is Failed) implies about(
                t[i],
            ) != about(t[j]) by {
            assert(t[i] == t0[i]);
            assert(t[j] == t0[j]);
        }
        assert forall|j: int|
            0 <= j < t.len() && #[trigger] t[j] is Completed implies exists|i: int|
                0 <= i < j && #[trigger] t[i] == Effect::Marked(about(t[j])->0) by {
            assert(t0[j] == t[j]);
            let i = choose|i: int| 0 <= i < j && #[trigger] t0[i] == Effect::Marked(about(t[j])->0);
            assert(t[i] == t0[i]);
        }
        assert forall|v: int|
            0 <= v < self.workers@.len() && #[trigger] self.phase_at(v) is Marking implies exists|
                i: int,
            |
                0 <= i < t.len() && #[trigger] t[i] == Effect::Marked(held(self.phase_at(v))->0) by {
            let i = choose|i: int|
                0 <= i < t0.len() && #[trigger] t0[i] == Effect::Marked(held(e0.phase_at(v))->0);
            assert(t[i] == t0[i]);
        }
        assert forall|i: int, j: int|
            0 <= i < j < t.len() && #[trigger] t[i] is Cancelled implies !(#[trigger] t[j] is Dispatched) by {
            assert(t[i] == t0[i]);
            if j < t0.len() {
                assert(t[j] == t0[j]);
            }
        }
        assert forall|i: int| 0 <= i < t.len() && !self.finished implies !(#[trigger] t[i] is TornDown) by {
            if i < t0.len() {
                assert(t[i] == t0[i]);
            }
        }
        assert forall|i: int| 1 <= i < t.len() implies !(#[trigger] t[i] is JobCount) by {
            if i < t0.len() {
                assert(t[i] == t0[i]);
            }
        }
        assert forall|i: int| 0 <= i < t.len() && #[trigger] t[i] is Marked implies 1 <= i && t[i - 1]
            == Effect::Navigated(about(t[i])->0) by {
            assert(t[i] == t0[i]);
            assert(t[i - 1] == t0[i - 1]);
        }
    }

    proof fn lemma_released(&self, e0: &Engine, w: int)
        requires
            e0.wf(),
            0 <= w < e0.workers@.len(),
            held(e0.phase_at(w)) is None,
            self.workers@ == e0.workers@.update(w, Worker::Exited),
            self.trace@ == e0.trace@.push(Effect::Released(w as nat)),
            queued(self.feed) == queued(e0.feed),
            self.taken == e0.taken,
            self.loaded == e0.loaded,
            self.max_retries == e0.max_retries,
            self.pause_secs == e0.pause_secs,
            self.cancelled == e0.cancelled,
            self.finished == e0.finished,
        ensures
            self.wf(),
            self.others_unchanged(e0, w),
            self.phases()[w] == Phase::Exited,
    {
        reveal(Engine::feed_ok);
        reveal(Engine::tabs_ok);
        reveal(Engine::trace_ok);
        reveal(Engine::outcomes_ok);
        reveal(Engine::lifecycle_ok);
        let t = self.trace@;
        let t0 = e0.trace@;
        lemma_no_new_dispatch(t, t0);
        assert(t[t.len() - 1] == Effect::Released(w as nat));
        assert forall|v: int| 0 <= v < self.workers@.len() && v != w implies self.phase_at(v)
            == e0.phase_at(v) by {}
        assert forall|v: int|
            0 <= v < self.phases().len() && v != w implies #[trigger] self.phases()[v]
                == e0.phases()[v] && self.delays_left(v) == e0.delays_left(v) by {
            self.lemma_phases(v);
            e0.lemma_phases(v);
        }
        self.lemma_phases(w);
        assert forall|i: int| 0 <= i < t.len() && about(#[trigger] t[i]) is Some implies self.taken_urls().contains(
            about(t[i])->0,
        ) by {
            assert(t[i] == t0[i]);
        }
        assert forall|i: int, v: int|
            0 <= i < t.len() && 0 <= v < self.workers@.len() && (#[trigger] t[i] is Marked
                || t[i] is Failed) implies navigating(#[trigger] self.phase_at(v)) != about(t[i]) by {
            assert(t[i] == t0[i]);
        }
        assert forall|i: int, v: int|
            0 <= i < t.len() && 0 <= v < self.workers@.len() && #[trigger] t[i] is Failed
                implies held(#[trigger] self.phase_at(v)) != about(t[i]) by {
            assert(t[i] == t0[i]);
        }
        assert forall|i: int, j: int|
            0 <= i < t.len() && 0 <= j < t.len() && i != j && (#[trigger] t[i] is Marked
                || t[i] is Failed) && (#[trigger] t[j] is Marked || t[j] is Failed) implies about(
                t[i],
            ) != about(t[j]) by {
            assert(t[i] == t0[i]);
            assert(t[j] == t0[j]);
        }
        assert forall|j: int|
            0 <= j < t.len() && #[trigger] t[j] is Completed implies exists|i: int|
                0 <= i < j && #[trigger] t[i] == Effect::Marked(about(t[j])->0) by {
            assert(t0[j] == t[j]);
            let i = choose|i: int| 0 <= i < j && #[trigger] t0[i] == Effect::Marked(about(t[j])->0);
            assert(t[i] == t0[i]);
        }
        assert forall|v: int|
            0 <= v < self.workers@.len() && #[trigger] self.phase_at(v) is Marking implies exists|
                i: int,
            |
                0 <= i < t.len() && #[trigger] t[i] == Effect::Marked(held(self.phase_at(v))->0) by {
            let i = choose|i: int|
                0 <= i < t0.len() && #[trigger] t0[i] == Effect::Marked(held(e0.phase_at(v))->0);
            assert(t[i] == t0[i]);
        }
        assert forall|i: int, j: int|
            0 <= i < j < t.len() && #[trigger] t[i] is Cancelled implies !(#[trigger] t[j] is Dispatched) by {
            assert(t[i] == t0[i]);
            if j < t0.len() {
                assert(t[j] == t0[j]);
            }
        }
        assert forall|i: int| 0 <= i < t.len() && !self.finished implies !(#[trigger] t[i] is TornDown) by {
            if i < t0.len() {
                assert(t[i] == t0[i]);
            }
        }
        assert forall|i: int| 0 <= i < t.len() && !self.cancelled implies !(#[trigger] t[i] is Cancelled) by {
            if i < t0.len() {
                assert(t[i] == t0[i]);
            }
        }
        assert forall|i: int| 1 <= i < t.len() implies !(#[trigger] t[i] is JobCount) by {
            if i < t0.len() {
                assert(t[i] == t0[i]);
            }
        }
        assert forall|i: int| 0 <= i < t.len() && #[trigger] t[i] is Marked implies 1 <= i && t[i - 1]
            == Effect::Navigated(about(t[i])->0) by {
            assert(t[i] == t0[i]);
            assert(t[i - 1] == t0[i - 1]);
        }
        if forall|i: int| 0 <= i < t.len() ==> !(#[trigger] t[i] is Dispatched) {
            assert forall|i: int| 0 <= i < t0.len() implies !(#[trigger] t0[i] is Dispatched) by {
                assert(t[i] == t0[i]);
            }
            assert forall|i: int| 0 <= i < t.len() implies about(#[trigger] t[i]) is None by {
                if i < t0.len() {
                    assert(t[i] == t0[i]);
                }
            }
        }
    }

    proof fn lemma_same_feed(&self, e0: &Engine)
        requires
            e0.wf(),
            queued(self.feed) == queued(e0.feed),
            self.workers == e0.workers,
            self.trace == e0.trace,
            self.taken == e0.taken,
            self.loaded == e0.loaded,
            self.max_retries == e0.max_retries,
            self.cancelled == e0.cancelled,
            self.finished == e0.finished,
        ensures
            self.wf(),
    {
        reveal(Engine::feed_ok);
        reveal(Engine::tabs_ok);
        reveal(Engine::trace_ok);
        reveal(Engine::outcomes_ok);
        reveal(Engine::lifecycle_ok);
        assert forall|w: int| 0 <= w < self.workers@.len() implies self.phase_at(w) == e0.phase_at(w) by {}
    }

    proof fn lemma_retried(&self, e0: &Engine, w: int)
        requires
            e0.wf(),
            0 <= w < e0.workers@.len(),
            e0.workers@[w] is Navigating,
            self.workers@ == e0.workers@.update(w, self.workers@[w]),
            self.workers@[w] is Navigating,
            self.workers@[w]->Navigating_url@ == e0.workers@[w]->Navigating_url@,
            self.workers@[w]->Navigating_failures == e0.workers@[w]->Navigating_failures + 1,
            backoff_delays(e0.workers@[w]->Navigating_backoff).len() > 0,
            backoff_delays(self.workers@[w]->Navigating_backoff) == backoff_delays(
                e0.workers@[w]->Navigating_backoff,
            ).drop_first(),
            self.trace@ == e0.trace@.push(Effect::Retried(e0.workers@[w]->Navigating_url@)),
            queued(self.feed) == queued(e0.feed),
            self.taken == e0.taken,
            self.loaded == e0.loaded,
            self.max_retries == e0.max_retries,
            self.pause_secs == e0.pause_secs,
            self.cancelled == e0.cancelled,
            self.finished == e0.finished,
        ensures
            self.wf(),
            self.others_unchanged(e0, w),
            self.phases()[w] == self.phase_at(w),
            self.delays_left(w) == e0.delays_left(w).drop_first(),
    {
        reveal(Engine::feed_ok);
        reveal(Engine::tabs_ok);
        reveal(Engine::trace_ok);
        self.lemma_phases(w);
        let t = self.trace@;
        let t0 = e0.trace@;
        lemma_no_new_dispatch(t, t0);
        let u = e0.workers@[w]->Navigating_url@;
        assert(t[t.len() - 1] == Effect::Retried(u));
        assert(e0.workers@[w].budget_ok(e0.max_retries as nat));
        assert(self.workers@[w].budget_ok(self.max_retries as nat));
        assert forall|v: int| 0 <= v < self.workers@.len() && v != w implies self.phase_at(v)
            == e0.phase_at(v) by {}
        assert forall|v: int|
            0 <= v < self.phases().len() && v != w implies #[trigger] self.phases()[v]
                == e0.phases()[v] && self.delays_left(v) == e0.delays_left(v) by {
            self.lemma_phases(v);
            e0.lemma_phases(v);
        }
        assert(held(self.phase_at(w)) == held(e0.phase_at(w)));
        assert(navigating(self.phase_at(w)) == navigating(e0.phase_at(w)));
        assert forall|i: int| 0 <= i < t.len() && about(#[trigger] t[i]) is Some implies self.taken_urls().contains(
            about(t[i])->0,
        ) by {
            if i < t0.len() {
                assert(t[i] == t0[i]);
            }
        }
        self.lemma_frame_outcomes(e0, w);
        self.lemma_frame_lifecycle(e0, w);
    }

    proof fn lemma_failed(&self, e0: &Engine, w: int)
        requires
            e0.wf(),
            0 <= w < e0.workers@.len(),
            e0.workers@[w] is Navigating,
            self.workers@ == e0.workers@.update(w, Worker::Exited),
            self.trace@ == e0.trace@.push(Effect::Failed(e0.workers@[w]->Navigating_url@)),
            queued(self.feed) == queued(e0.feed),
            self.taken == e0.taken,
            self.loaded == e0.loaded,
            self.max_retries == e0.max_retries,
            self.pause_secs == e0.pause_secs,
            self.cancelled == e0.cancelled,
            self.finished == e0.finished,
        ensures
            self.wf(),
            self.others_unchanged(e0, w),
            held(self.phase_at(w)) is None,
    {
        reveal(Engine::feed_ok);
        reveal(Engine::tabs_ok);
        reveal(Engine::trace_ok);
        reveal(Engine::outcomes_ok);
        reveal(Engine::lifecycle_ok);
        self.lemma_phases(w);
        e0.lemma_phases(w);
        let t = self.trace@;
        let t0 = e0.trace@;
        lemma_no_new_dispatch(t, t0);
        let u = e0.workers@[w]->Navigating_url@;
        let n = t0.len() as int;
        assert(t[n] == Effect::Failed(u));
        assert(held(e0.phase_at(w)) == Some(u));
        assert forall|v: int| 0 <= v < self.workers@.len() && v != w implies self.phase_at(v)
            == e0.phase_at(v) by {}
        assert forall|v: int|
            0 <= v < self.phases().len() && v != w implies #[trigger] self.phases()[v]
                == e0.phases()[v] && self.delays_left(v) == e0.delays_left(v) by {
            self.lemma_phases(v);
            e0.lemma_phases(v);
        }
        assert forall|i: int| 0 <= i < t.len() && about(#[trigger] t[i]) is Some implies self.taken_urls().contains(
            about(t[i])->0,
        ) by {
            if i < n {
                assert(t[i] == t0[i]);
            }
        }
        assert forall|i: int, v: int|
            0 <= i < t.len() && 0 <= v < self.workers@.len() && (#[trigger] t[i] is Marked
                || t[i] is Failed) implies navigating(#[trigger] self.phase_at(v)) != about(t[i]) by {
            if i < n {
                assert(t[i] == t0[i]);
            } else if v != w {
                assert(held(e0.phase_at(v)) != held(e0.phase_at(w)));
            }
        }
        assert forall|i: int, v: int|
            0 <= i < t.len() && 0 <= v < self.workers@.len() && #[trigger] t[i] is Failed
                implies held(#[trigger] self.phase_at(v)) != about(t[i]) by {
            if i < n {
                assert(t[i] == t0[i]);
            } else if v != w {
                assert(held(e0.phase_at(v)) != held(e0.phase_at(w)));
            }
        }
        assert forall|i: int, j: int|
            0 <= i < t.len() && 0 <= j < t.len() && i != j && (#[trigger] t[i] is Marked
                || t[i] is Failed) && (#[trigger] t[j] is Marked || t[j] is Failed) implies about(
                t[i],
            ) != about(t[j]) by {
            if i < n && j < n {
                assert(t[i] == t0[i]);
                assert(t[j] == t0[j]);
            } else if i < n {
                assert(t[i] == t0[i]);
                assert(navigating(e0.phase_at(w)) != about(t0[i]));
            } else {
                assert(t[j] == t0[j]);
                assert(navigating(e0.phase_at(w)) != about(t0[j]));
            }
        }
        assert forall|j: int|
            0 <= j < t.len() && #[trigger] t[j] is Completed implies exists|i: int|
                0 <= i < j && #[trigger] t[i] == Effect::Marked(about(t[j])->0) by {
            assert(t0[j] == t[j]);
            let i = choose|i: int| 0 <= i < j && #[trigger] t0[i] == Effect::Marked(about(t[j])->0);
            assert(t[i] == t0[i]);
        }
        assert forall|v: int|
            0 <= v < self.workers@.len() && #[trigger] self.phase_at(v) is Marking implies exists|
                i: int,
            |
                0 <= i < t.len() && #[trigger] t[i] == Effect::Marked(held(self.phase_at(v))->0) by {
            let i = choose|i: int|
                0 <= i < t0.len() && #[trigger] t0[i] == Effect::Marked(held(e0.phase_at(v))->0);
            assert(t[i] == t0[i]);
        }
        assert forall|i: int| 0 <= i < t.len() && #[trigger] t[i] is Marked implies 1 <= i && t[i - 1]
            == Effect::Navigated(about(t[i])->0) by {
            assert(t[i] == t0[i]);
            assert(t[i - 1] == t0[i - 1]);
        }
        assert forall|i: int, j: int|
            0 <= i < j < t.len() && #[trigger] t[i] is Cancelled implies !(#[trigger] t[j] is Dispatched) by {
            assert(t[i] == t0[i]);
            if j < t0.len() {
                assert(t[j] == t0[j]);
            }
        }
        self.lemma_frame_lifecycle(e0, w);
    }

    proof fn lemma_succeeded(&self, e0: &Engine, w: int)
        requires
            e0.wf(),
            0 <= w < e0.workers@.len(),
            e0.workers@[w] is Navigating,
            self.workers@ == e0.workers@.update(w, self.workers@[w]),
            self.workers@[w] is Marking,
            self.workers@[w]->Marking_url@ == e0.workers@[w]->Navigating_url@,
            self.trace@ == e0.trace@.push(Effect::Navigated(e0.workers@[w]->Navigating_url@)).push(
                Effect::Marked(e0.workers@[w]->Navigating_url@),
            ),
            queued(self.feed) == queued(e0.feed),
            self.taken == e0.taken,
            self.loaded == e0.loaded,
            self.max_retries == e0.max_retries,
            self.pause_secs == e0.pause_secs,
            self.cancelled == e0.cancelled,
            self.finished == e0.finished,
        ensures
            self.wf(),
            self.others_unchanged(e0, w),
            self.phases()[w] == self.phase_at(w),
    {
        reveal(Engine::feed_ok);
        reveal(Engine::tabs_ok);
        reveal(Engine::trace_ok);
        reveal(Engine::outcomes_ok);
        reveal(Engine::lifecycle_ok);
        self.lemma_phases(w);
        e0.lemma_phases(w);
        let t = self.trace@;
        let t0 = e0.trace@;
        lemma_no_new_dispatch(t, t0);
        let u = e0.workers@[w]->Navigating_url@;
        let n = t0.len() as int;
        assert(t[n] == Effect::Navigated(u));
        assert(t[n + 1] == Effect::Marked(u));
        assert(held(e0.phase_at(w)) == Some(u));
        assert(held(self.phase_at(w)) == Some(u));
        assert forall|v: int| 0 <= v < self.workers@.len() && v != w implies self.phase_at(v)
            == e0.phase_at(v) by {}
        assert forall|v: int|
            0 <= v < self.phases().len() && v != w implies #[trigger] self.phases()[v]
                == e0.phases()[v] && self.delays_left(v) == e0.delays_left(v) by {
            self.lemma_phases(v);
            e0.lemma_phases(v);
        }
        assert forall|i: int| 0 <= i < t.len() && about(#[trigger] t[i]) is Some implies self.taken_urls().contains(
            about(t[i])->0,
        ) by {
            if i < n {
                assert(t[i] == t0[i]);
            }
        }
        assert forall|i: int, v: int|
            0 <= i < t.len() && 0 <= v < self.workers@.len() && (#[trigger] t[i] is Marked
                || t[i] is Failed) implies navigating(#[trigger] self.phase_at(v)) != about(t[i]) by {
            if i < n {
                assert(t[i] == t0[i]);
            } else if v != w {
                assert(held(e0.phase_at(v)) != held(e0.phase_at(w)));
            }
        }
        assert forall|i: int, v: int|
            0 <= i < t.len() && 0 <= v < self.workers@.len() && #[trigger] t[i] is Failed
                implies held(#[trigger] self.phase_at(v)) != about(t[i]) by {
            assert(i < n);
            assert(t[i] == t0[i]);
        }
        assert forall|i: int, j: int|
            0 <= i < t.len() && 0 <= j < t.len() && i != j && (#[trigger] t[i] is Marked
                || t[i] is Failed) && (#[trigger] t[j] is Marked || t[j] is Failed) implies about(
                t[i],
            ) != about(t[j]) by {
            if i < n && j < n {
                assert(t[i] == t0[i]);
                assert(t[j] == t0[j]);
            } else if i < n {
                assert(t[i] == t0[i]);
                assert(navigating(e0.phase_at(w)) != about(t0[i]));
            } else {
                assert(t[j] == t0[j]);
                assert(navigating(e0.phase_at(w)) != about(t0[j]));
            }
        }
        assert forall|j: int|
            0 <= j < t.len() && #[trigger] t[j] is Completed implies exists|i: int|
                0 <= i < j && #[trigger] t[i] == Effect::Marked(about(t[j])->0) by {
            assert(t0[j] == t[j]);
            let i = choose|i: int| 0 <= i < j && #[trigger] t0[i] == Effect::Marked(about(t[j])->0);
            assert(t[i] == t0[i]);
        }
        assert forall|v: int|
            0 <= v < self.workers@.len() && #[trigger] self.phase_at(v) is Marking implies exists|
                i: int,
            |
                0 <= i < t.len() && #[trigger] t[i] == Effect::Marked(held(self.phase_at(v))->0) by {
            if v == w {
                assert(t[n + 1] == Effect::Marked(held(self.phase_at(v))->0));
            } else {
                let i = choose|i: int|
                    0 <= i < t0.len() && #[trigger] t0[i] == Effect::Marked(held(e0.phase_at(v))->0);
                assert(t[i] == t0[i]);
            }
        }
        assert forall|i: int| 0 <= i < t.len() && #[trigger] t[i] is Marked implies 1 <= i && t[i - 1]
            == Effect::Navigated(about(t[i])->0) by {
            if i < n {
                assert(t[i] == t0[i]);
                assert(t[i - 1] == t0[i - 1]);
            }
        }
        assert forall|i: int, j: int|
            0 <= i < j < t.len() && #[trigger] t[i] is Cancelled implies !(#[trigger] t[j] is Dispatched) by {
            assert(t[i] == t0[i]);
            if j < t0.len() {
                assert(t[j] == t0[j]);
            }
        }
        self.lemma_frame_lifecycle(e0, w);
    }

    proof fn lemma_recorded(&self, e0: &Engine, w: int)
        requires
            e0.wf(),
            0 <= w < e0.workers@.len(),
            e0.workers@[w] is Marking,
            self.workers@ == e0.workers@.update(w, Worker::Ready),
            self.trace@ == e0.trace@.push(Effect::Completed(e0.workers@[w]->Marking_url@)),
            queued(self.feed) == queued(e0.feed),
            self.taken == e0.taken,
            self.loaded == e0.loaded,
            self.max_retries == e0.max_retries,
            self.pause_secs == e0.pause_secs,
            self.cancelled == e0.cancelled,
            self.finished == e0.finished,
        ensures
            self.wf(),
            self.others_unchanged(e0, w),
            self.phases()[w] == Phase::Ready,
            e0.phases()[w] == (Phase::Marking { url: e0.workers@[w]->Marking_url@ }),
    {
        reveal(Engine::feed_ok);
        reveal(Engine::tabs_ok);
        reveal(Engine::trace_ok);
        reveal(Engine::outcomes_ok);
        reveal(Engine::lifecycle_ok);
        self.lemma_phases(w);
        e0.lemma_phases(w);
        let t = self.trace@;
        let t0 = e0.trace@;
        lemma_no_new_dispatch(t, t0);
        let u = e0.workers@[w]->Marking_url@;
        let n = t0.len() as int;
        assert(t[n] == Effect::Completed(u));
        assert forall|v: int| 0 <= v < self.workers@.len() && v != w implies self.phase_at(v)
            == e0.phase_at(v) by {}
        assert forall|v: int|
            0 <= v < self.phases().len() && v != w implies #[trigger] self.phases()[v]
                == e0.phases()[v] && self.delays_left(v) == e0.delays_left(v) by {
            self.lemma_phases(v);
            e0.lemma_phases(v);
        }
        assert forall|i: int| 0 <= i < t.len() && about(#[trigger] t[i]) is Some implies self.taken_urls().contains(
            about(t[i])->0,
        ) by {
            if i < n {
                assert(t[i] == t0[i]);
            } else {
                assert(held(e0.phase_at(w)) == Some(u));
            }
        }
        assert forall|i: int, v: int|
            0 <= i < t.len() && 0 <= v < self.workers@.len() && (#[trigger] t[i] is Marked
                || t[i] is Failed) implies navigating(#[trigger] self.phase_at(v)) != about(t[i]) by {
            assert(t[i] == t0[i]);
        }
        assert forall|i: int, v: int|
            0 <= i < t.len() && 0 <= v < self.workers@.len() && #[trigger] t[i] is Failed
                implies held(#[trigger] self.phase_at(v)) != about(t[i]) by {
            assert(t[i] == t0[i]);
        }
        assert forall|i: int, j: int|
            0 <= i < t.len() && 0 <= j < t.len() && i != j && (#[trigger] t[i] is Marked
                || t[i] is Failed) && (#[trigger] t[j] is Marked || t[j] is Failed) implies about(
                t[i],
            ) != about(t[j]) by {
            assert(t[i] == t0[i]);
            assert(t[j] == t0[j]);
        }
        assert forall|j: int|
            0 <= j < t.len() && #[trigger] t[j] is Completed implies exists|i: int|
                0 <= i < j && #[trigger] t[i] == Effect::Marked(about(t[j])->0) by {
            if j < n {
                assert(t0[j] == t[j]);
                let i = choose|i: int|
                    0 <= i < j && #[trigger] t0[i] == Effect::Marked(about(t[j])->0);
                assert(t[i] == t0[i]);
            } else {
                assert(e0.phase_at(w) is Marking);
                let i = choose|i: int|
                    0 <= i < t0.len() && #[trigger] t0[i] == Effect::Marked(held(e0.phase_at(w))->0);
                assert(t[i] == t0[i]);
            }
        }
        assert forall|v: int|
            0 <= v < self.workers@.len() && #[trigger] self.phase_at(v) is Marking implies exists|
                i: int,
            |
                0 <= i < t.len() && #[trigger] t[i] == Effect::Marked(held(self.phase_at(v))->0) by {
            let i = choose|i: int|
                0 <= i < t0.len() && #[trigger] t0[i] == Effect::Marked(held(e0.phase_at(v))->0);
            assert(t[i] == t0[i]);
        }
        assert forall|i: int| 0 <= i < t.len() && #[trigger] t[i] is Marked implies 1 <= i && t[i - 1]
            == Effect::Navigated(about(t[i])->0) by {
            assert(t[i] == t0[i]);
            assert(t[i - 1] == t0[i - 1]);
        }
        assert forall|i: int, j: int|
            0 <= i < j < t.len() && #[trigger] t[i] is Cancelled implies !(#[trigger] t[j] is Dispatched) by {
            assert(t[i] == t0[i]);
            if j < t0.len() {
                assert(t[j] == t0[j]);
            }
        }
        self.lemma_frame_lifecycle(e0, w);
    }

    /// The outcome invariants carry over a step that appends an effect other
    /// than a mark, a completion or an error, and leaves the URL each tab works
    /// on as it was.
    proof fn lemma_frame_outcomes(&self, e0: &Engine, w: int)
        requires
            e0.outcomes_ok(),
            0 <= w < e0.workers@.len(),
            self.workers@.len() == e0.workers@.len(),
            forall|v: int| 0 <= v < self.workers@.len() && v != w ==> self.phase_at(v) == e0.phase_at(v),
            held(self.phase_at(w)) == held(e0.phase_at(w)),
            navigating(self.phase_at(w)) == navigating(e0.phase_at(w)),
            e0.phase_at(w) is Marking <==> self.phase_at(w) is Marking,
            self.trace@.len() == e0.trace@.len() + 1,
            forall|i: int| 0 <= i < e0.trace@.len() ==> self.trace@[i] == e0.trace@[i],
            !(self.trace@[e0.trace@.len() as int] is Marked),
            !(self.trace@[e0.trace@.len() as int] is Failed),
            !(self.trace@[e0.trace@.len() as int] is Completed),
        ensures
            self.outcomes_ok(),
    {
        reveal(Engine::outcomes_ok);
        let t = self.trace@;
        let t0 = e0.trace@;
        let n = t0.len() as int;
        assert forall|i: int, v: int|
            0 <= i < t.len() && 0 <= v < self.workers@.len() && (#[trigger] t[i] is Marked
                || t[i] is Failed) implies navigating(#[trigger] self.phase_at(v)) != about(t[i]) by {
            assert(t[i] == t0[i]);
        }
        assert forall|i: int, v: int|
            0 <= i < t.len() && 0 <= v < self.workers@.len() && #[trigger] t[i] is Failed
                implies held(#[trigger] self.phase_at(v)) != about(t[i]) by {
            assert(t[i] == t0[i]);
        }
        assert forall|i: int, j: int|
            0 <= i < t.len() && 0 <= j < t.len() && i != j && (#[trigger] t[i] is Marked
                || t[i] is Failed) && (#[trigger] t[j] is Marked || t[j] is Failed) implies about(
                t[i],
            ) != about(t[j]) by {
            assert(t[i] == t0[i]);
            assert(t[j] == t0[j]);
        }
        assert forall|j: int|
            0 <= j < t.len() && #[trigger] t[j] is Completed implies exists|i: int|
                0 <= i < j && #[trigger] t[i] == Effect::Marked(about(t[j])->0) by {
            assert(t0[j] == t[j]);
            let i = choose|i: int| 0 <= i < j && #[trigger] t0[i] == Effect::Marked(about(t[j])->0);
            assert(t[i] == t0[i]);
        }
        assert forall|v: int|
            0 <= v < self.workers@.len() && #[trigger] self.phase_at(v) is Marking implies exists|
                i: int,
            |
                0 <= i < t.len() && #[trigger] t[i] == Effect::Marked(held(self.phase_at(v))->0) by {
            let i = choose|i: int|
                0 <= i < t0.len() && #[trigger] t0[i] == Effect::Marked(held(e0.phase_at(v))->0);
            assert(t[i] == t0[i]);
        }
        assert forall|i: int| 0 <= i < t.len() && #[trigger] t[i] is Marked implies 1 <= i && t[i - 1]
            == Effect::Navigated(about(t[i])->0) by {
            assert(t[i] == t0[i]);
            assert(t[i - 1] == t0[i - 1]);
        }
    }

    /// The remaining lifecycle invariants carry over a step by a tab that held
    /// a URL: such a tab shows that something was dispatched.
    proof fn lemma_frame_lifecycle(&self, e0: &Engine, w: int)
        requires
            e0.lifecycle_ok(),
            0 <= w < e0.workers@.len(),
            held(e0.phase_at(w)) is Some,
            self.cancelled == e0.cancelled,
            self.finished == e0.finished,
            self.trace@.len() >= e0.trace@.len(),
            forall|i: int| 0 <= i < e0.trace@.len() ==> self.trace@[i] == e0.trace@[i],
            forall|i: int|
                e0.trace@.len() <= i < self.trace@.len() ==> !(#[trigger] self.trace@[i] is Dispatched)
                    && !(self.trace@[i] is Cancelled) && !(self.trace@[i] is TornDown),
        ensures
            self.lifecycle_ok(),
    {
        reveal(Engine::lifecycle_ok);
        let t = self.trace@;
        let t0 = e0.trace@;
        assert forall|i: int| 0 <= i < t.len() && !self.cancelled implies !(#[trigger] t[i] is Cancelled) by {
            if i < t0.len() {
                assert(t[i] == t0[i]);
            }
        }
        assert forall|i: int| 0 <= i < t.len() && !self.finished implies !(#[trigger] t[i] is TornDown) by {
            if i < t0.len() {
                assert(t[i] == t0[i]);
            }
        }
        assert forall|i: int, j: int|
            0 <= i < j < t.len() && #[trigger] t[i] is Cancelled implies !(#[trigger] t[j] is Dispatched) by {
            assert(t[i] == t0[i]);
            if j < t0.len() {
                assert(t[j] == t0[j]);
            }
        }
        if forall|i: int| 0 <= i < t.len() ==> !(#[trigger] t[i] is Dispatched) {
            assert forall|i: int| 0 <= i < t0.len() implies !(#[trigger] t0[i] is Dispatched) by {
                assert(t[i] == t0[i]);
            }
            assert(held(e0.phase_at(w)) is None);
        }
    }

    proof fn lemma_signalled(&self, e0: &Engine, e: Effect)
        requires
            e0.wf(),
            e is Cancelled || e is TornDown,
            self.trace@ == e0.trace@.push(e),
            e is Cancelled ==> self.cancelled && self.finished == e0.finished,
            e is TornDown ==> self.finished && self.cancelled == e0.cancelled,
            self.workers == e0.workers,
            self.feed == e0.feed,
            self.taken == e0.taken,
            self.loaded == e0.loaded,
            self.max_retries == e0.max_retries,
            self.pause_secs == e0.pause_secs,
        ensures
            self.wf(),
    {
        reveal(Engine::feed_ok);
        reveal(Engine::tabs_ok);
        reveal(Engine::trace_ok);
        reveal(Engine::outcomes_ok);
        reveal(Engine::lifecycle_ok);
        let t = self.trace@;
        let t0 = e0.trace@;
        lemma_no_new_dispatch(t, t0);
        let n = t0.len() as int;
        assert(t[n] == e);
        assert forall|v: int| 0 <= v < self.workers@.len() implies self.phase_at(v) == e0.phase_at(v) by {}
        assert forall|i: int| 1 <= i < t.len() implies !(#[trigger] t[i] is JobCount) by {
            if i < n {
                assert(t[i] == t0[i]);
            }
        }
        assert forall|i: int| 0 <= i < t.len() && about(#[trigger] t[i]) is Some implies self.taken_urls().contains(
            about(t[i])->0,
        ) by {
            assert(t[i] == t0[i]);
        }
        assert forall|i: int, v: int|
            0 <= i < t.len() && 0 <= v < self.workers@.len() && (#[trigger] t[i] is Marked
                || t[i] is Failed) implies navigating(#[trigger] self.phase_at(v)) != about(t[i]) by {
            assert(t[i] == t0[i]);
        }
        assert forall|i: int, v: int|
            0 <= i < t.len() && 0 <= v < self.workers@.len() && #[trigger] t[i] is Failed
                implies held(#[trigger] self.phase_at(v)) != about(t[i]) by {
            assert(t[i] == t0[i]);
        }
        assert forall|i: int, j: int|
            0 <= i < t.len() && 0 <= j < t.len() && i != j && (#[trigger] t[i] is Marked
                || t[i] is Failed) && (#[trigger] t[j] is Marked || t[j] is Failed) implies about(
                t[i],
            ) != about(t[j]) by {
            assert(t[i] == t0[i]);
            assert(t[j] == t0[j]);
        }
        assert forall|j: int|
            0 <= j < t.len() && #[trigger] t[j] is Completed implies exists|i: int|
                0 <= i < j && #[trigger] t[i] == Effect::Marked(about(t[j])->0) by {
            assert(t0[j] == t[j]);
            let i = choose|i: int| 0 <= i < j && #[trigger] t0[i] == Effect::Marked(about(t[j])->0);
            assert(t[i] == t0[i]);
        }
        assert forall|v: int|
            0 <= v < self.workers@.len() && #[trigger] self.phase_at(v) is Marking implies exists|
                i: int,
            |
                0 <= i < t.len() && #[trigger] t[i] == Effect::Marked(held(self.phase_at(v))->0) by {
            let i = choose|i: int|
                0 <= i < t0.len() && #[trigger] t0[i] == Effect::Marked(held(e0.phase_at(v))->0);
            assert(t[i] == t0[i]);
        }
        assert forall|i: int| 0 <= i < t.len() && #[trigger] t[i] is Marked implies 1 <= i && t[i - 1]
            == Effect::Navigated(about(t[i])->0) by {
            assert(t[i] == t0[i]);
            assert(t[i - 1] == t0[i - 1]);
        }
        assert forall|i: int| 0 <= i < t.len() && !self.cancelled implies !(#[trigger] t[i] is Cancelled) by {
            if i < n {
                assert(t[i] == t0[i]);
            }
        }
        assert forall|i: int| 0 <= i < t.len() && !self.finished implies !(#[trigger] t[i] is TornDown) by {
            if i < n {
                assert(t[i] == t0[i]);
            }
        }
        assert forall|i: int, j: int|
            0 <= i < j < t.len() && #[trigger] t[i] is Cancelled implies !(#[trigger] t[j] is Dispatched) by {
            assert(t[i] == t0[i]);
            if j < n {
                assert(t[j] == t0[j]);
            }
        }
        if forall|i: int| 0 <= i < t.len() ==> !(#[trigger] t[i] is Dispatched) {
            assert forall|i: int| 0 <= i < t0.len() implies !(#[trigger] t0[i] is Dispatched) by {
                assert(t[i] == t0[i]);
            }
            assert forall|i: int| 0 <= i < t.len() implies about(#[trigger] t[i]) is None by {
                if i < n {
                    assert(t[i] == t0[i]);
                }
            }
        }
    }
}

/// A trace that grows by steps which dispatch nothing still dispatches no
/// URL twice.
proof fn lemma_no_new_dispatch(t: Seq<Effect>, t0: Seq<Effect>)
    requires
        dispatched_once(t0),
        t0.len() <= t.len(),
        forall|i: int| 0 <= i < t0.len() ==> t[i] == t0[i],
        forall|i: int| t0.len() <= i < t.len() ==> !(#[trigger] t[i] is Dispatched),
    ensures
        dispatched_once(t),
{
    assert forall|i: int, j: int|
        0 <= i < t.len() && 0 <= j < t.len() && i != j && #[trigger] t[i] is Dispatched
            && #[trigger] t[j] is Dispatched implies about(t[i]) != about(t[j]) by {
        assert(t[i] == t0[i]);
        assert(t[j] == t0[j]);
    }
}

/// Over the whole run, no URL is dequeued twice: each is dispatched to at
/// most one tab, once.
pub proof fn lemma_dispatched_once(e: &Engine)
    requires
        e.wf(),
    ensures
        dispatched_once(e.trace()),
{
    reveal(Engine::trace_ok);
}

/// The first event of a run is the `JobCount` of the URLs loaded at startup,
/// and no other `JobCount` follows.
pub proof fn lemma_job_count_first(e: &Engine)
    requires
        e.wf(),
    ensures
        e.trace().len() >= 1,
        e.trace()[0] == Effect::JobCount(e.loaded().len()),
        forall|i: int| 1 <= i < e.trace().len() ==> !(#[trigger] e.trace()[i] is JobCount),
{
    reveal(Engine::trace_ok);
}

/// A URL that reached `CompleteJob` was marked visited exactly once, right
/// after a successful navigation to it and before the `CompleteJob`.
pub proof fn lemma_completed_marked_once(e: &Engine, j: int)
    requires
        e.wf(),
        0 <= j < e.trace().len(),
        e.trace()[j] is Completed,
    ensures
        ({
            let u = about(e.trace()[j])->0;
            exists|i: int|
                1 <= i < j && #[trigger] e.trace()[i] == Effect::Marked(u) && e.trace()[i - 1]
                    == Effect::Navigated(u) && forall|k: int|
                    0 <= k < e.trace().len() && #[trigger] e.trace()[k] == Effect::Marked(u) ==> k
                        == i
        }),
{
    reveal(Engine::outcomes_ok);
    let t = e.trace();
    let u = about(t[j])->0;
    let i = choose|i: int| 0 <= i < j && #[trigger] t[i] == Effect::Marked(u);
    assert(t[i] is Marked);
    assert(t[i - 1] == Effect::Navigated(u));
    assert forall|k: int| 0 <= k < t.len() && #[trigger] t[k] == Effect::Marked(u) implies k == i by {
        if k != i {
            assert(t[k] is Marked);
            assert(about(t[k]) != about(t[i]));
        }
    }
}

/// No URL is held by two tabs at once, and a URL a tab holds is no longer in
/// the feed.
pub proof fn lemma_no_url_held_twice(e: &Engine, w1: int, w2: int)
    requires
        e.wf(),
        0 <= w1 < e.phases().len(),
        0 <= w2 < e.phases().len(),
        w1 != w2,
        held(e.phases()[w1]) is Some,
    ensures
        held(e.phases()[w1]) != held(e.phases()[w2]),
        !e.pending().contains(held(e.phases()[w1])->0),
{
    reveal(Engine::tabs_ok);
    reveal(Engine::feed_ok);
    e.lemma_phases(w1);
    e.lemma_phases(w2);
    let u = held(e.phases()[w1])->0;
    let s = e.loaded@;
    let n = e.taken@ as int;
    assert(e.phase_at(w1) == e.phases()[w1]);
    assert(e.taken_urls().contains(u));
    if e.pending().contains(u) {
        let k = choose|k: int| 0 <= k < e.taken_urls().len() && e.taken_urls()[k] == u;
        let m = choose|m: int| 0 <= m < e.pending().len() && e.pending()[m] == u;
        assert(s[k] == s[n + m]);
    }
}

/// Once cancellation came before any URL was dispatched, no URL is ever
/// dispatched or navigated to, and teardown stays available.
pub proof fn lemma_cancel_before_any_pull(e: &Engine, c: int)
    requires
        e.wf(),
        0 <= c < e.trace().len(),
        e.trace()[c] is Cancelled,
        forall|i: int| 0 <= i < c ==> !(#[trigger] e.trace()[i] is Dispatched),
    ensures
        e.is_cancelled(),
        forall|i: int| 0 <= i < e.trace().len() ==> !is_navigation(#[trigger] e.trace()[i]),
        forall|i: int| 0 <= i < e.trace().len() ==> about(#[trigger] e.trace()[i]) is None,
        forall|w: int| 0 <= w < e.phases().len() ==> held(#[trigger] e.phases()[w]) is None,
{
    reveal(Engine::lifecycle_ok);
    let t = e.trace();
    assert forall|i: int| 0 <= i < t.len() implies !(#[trigger] t[i] is Dispatched) by {
        if i > c {
            assert(t[c] is Cancelled);
        }
    }
    assert forall|w: int| 0 <= w < e.phases().len() implies held(#[trigger] e.phases()[w]) is None by {
        e.lemma_phases(w);
        assert(held(e.phase_at(w)) is None);
    }
    assert forall|i: int| 0 <= i < t.len() implies !is_navigation(#[trigger] t[i]) by {
        assert(about(t[i]) is None);
    }
}

/// A URL that a tab gave up is never marked visited, is given up only once,
/// and no tab holds it any more.
pub proof fn lemma_given_up_never_marked(e: &Engine, i: int)
    requires
        e.wf(),
        0 <= i < e.trace().len(),
        e.trace()[i] is Failed,
    ensures
        ({
            let u = about(e.trace()[i])->0;
            &&& forall|k: int| 0 <= k < e.trace().len() ==> #[trigger] e.trace()[k] != Effect::Marked(u)
            &&& forall|k: int|
                0 <= k < e.trace().len() && k != i ==> #[trigger] e.trace()[k] != Effect::Failed(u)
            &&& forall|w: int| 0 <= w < e.phases().len() ==> held(#[trigger] e.phases()[w]) != Some(u)
        }),
{
    reveal(Engine::outcomes_ok);
    let t = e.trace();
    let u = about(t[i])->0;
    assert forall|k: int| 0 <= k < t.len() implies #[trigger] t[k] != Effect::Marked(u) by {
        if t[k] == Effect::Marked(u) {
            assert(t[k] is Marked);
            assert(about(t[k]) != about(t[i]));
        }
    }
    assert forall|k: int| 0 <= k < t.len() && k != i implies #[trigger] t[k] != Effect::Failed(u) by {
        if t[k] == Effect::Failed(u) {
            assert(t[k] is Failed);
            assert(about(t[k]) != about(t[i]));
        }
    }
    assert forall|w: int| 0 <= w < e.phases().len() implies held(#[trigger] e.phases()[w]) != Some(u) by {
        e.lemma_phases(w);
        assert(held(e.phase_at(w)) != about(t[i]));
    }
}

/// A run started with no pending URL announces zero, and no tab ever works
/// on anything: every pull finds the feed empty.
pub proof fn lemma_empty_start(e: &Engine)
    requires
        e.wf(),
        e.loaded().len() == 0,
    ensures
        e.trace()[0] == Effect::JobCount(0),
        e.pending().len() == 0,
        forall|i: int| 0 <= i < e.trace().len() ==> about(#[trigger] e.trace()[i]) is None,
        forall|w: int| 0 <= w < e.phases().len() ==> held(#[trigger] e.phases()[w]) is None,
{
    reveal(Engine::trace_ok);
    reveal(Engine::tabs_ok);
    reveal(Engine::feed_ok);
    assert(e.taken_urls().len() == 0);
    assert forall|i: int| 0 <= i < e.trace().len() implies about(#[trigger] e.trace()[i]) is None by {
        if about(e.trace()[i]) is Some {
            assert(e.taken_urls().contains(about(e.trace()[i])->0));
        }
    }
    assert forall|w: int| 0 <= w < e.phases().len() implies held(#[trigger] e.phases()[w]) is None by {
        e.lemma_phases(w);
        if held(e.phase_at(w)) is Some {
            assert(e.taken_urls().contains(held(e.phase_at(w))->0));
        }
    }
}

} // verus!
