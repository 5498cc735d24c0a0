//! What the background tasks around a cache decide.
use vstd::prelude::*;

verus! {

/// The longest time between two background sweeps: a minute.
pub const MAX_REAP_INTERVAL_NANOS: u128 = 60_000_000_000;

/// How a background sweep ended.
#[derive(Debug, Clone, Copy, PartialEq, Eq, Structural)]
pub enum SweepReport {
    /// The cache was swept.
    Swept,
    /// There is no cache any more.
    CacheGone,
    /// The sweep did not finish.
    Failed,
}

/// What has happened to a reaper.
#[derive(Debug, Clone, Copy, PartialEq, Eq, Structural)]
pub enum ReaperEvent {
    /// Its sleep is over.
    Woke,
    /// Its sweep has ended.
    Reported(SweepReport),
}

/// What a reaper does next.
#[derive(Debug, Clone, Copy, PartialEq, Eq, Structural)]
pub enum ReaperAction {
    /// Sleep for so many nanoseconds.
    Sleep(u128),
    /// Sweep the cache, if it is still there.
    Sweep,
    /// Nothing any more.
    Stop,
}

/// Sweeps a cache now and then, so that idle pools go without anybody asking for
/// one. It holds no cache itself: between two sweeps it keeps nothing alive.
#[derive(Debug)]
pub struct Reaper {
    interval: u128,
    doing: ReaperAction,
}

/// A reaper: how long it sleeps, and what it is doing.
#[verifier::ext_equal]
pub struct ReaperView {
    pub interval: nat,
    pub doing: ReaperAction,
}

/// The time between two sweeps: the idle timeout, but a minute at most.
pub open spec fn reap_interval(idle_timeout: nat) -> nat {
    if idle_timeout <= MAX_REAP_INTERVAL_NANOS {
        idle_timeout
    } else {
        MAX_REAP_INTERVAL_NANOS as nat
    }
}

impl View for Reaper {
    type V = ReaperView;

    closed spec fn view(&self) -> ReaperView {
        ReaperView { interval: self.interval as nat, doing: self.doing }
    }
}

impl ReaperView {
    /// What is done after `event`: a sweep follows a sleep, and a sleep follows a
    /// sweep of a cache that is still there. Whatever else happens ends it.
    pub open spec fn after(self, event: ReaperEvent) -> ReaperView {
        let next = match (self.doing, event) {
            (ReaperAction::Sleep(_), ReaperEvent::Woke) => ReaperAction::Sweep,
            (ReaperAction::Sweep, ReaperEvent::Reported(SweepReport::Swept)) => ReaperAction::Sleep(
                self.interval as u128,
            ),
            _ => ReaperAction::Stop,
        };
        ReaperView { doing: next, ..self }
    }

    /// What is done after all of `events`.
    pub open spec fn after_all(self, events: Seq<ReaperEvent>) -> ReaperView
        decreases events.len(),
    {
        if events.len() == 0 {
            self
        } else {
            self.after_all(events.drop_last()).after(events.last())
        }
    }
}

impl Reaper {
    /// A reaper for a cache with this idle timeout, in nanoseconds. It starts with
    /// a sleep.
    pub fn new(idle_timeout: u128) -> (reaper: Self)
        ensures
            reaper@ == (ReaperView {
                interval: reap_interval(idle_timeout as nat),
                doing: ReaperAction::Sleep(reap_interval(idle_timeout as nat) as u128),
            }),
    {
        let interval: u128 = if idle_timeout <= MAX_REAP_INTERVAL_NANOS {
            idle_timeout
        } else {
            MAX_REAP_INTERVAL_NANOS
        };
        Reaper { interval, doing: ReaperAction::Sleep(interval) }
    }

    /// What the reaper is to do now.
    pub fn action(&self) -> (action: ReaperAction)
        ensures
            action == self@.doing,
    {
        self.doing
    }

    /// Takes note of what happened.
    pub fn observe(&mut self, event: ReaperEvent)
        ensures
            final(self)@ == old(self)@.after(event),
    {
        self.doing = match (self.doing, event) {
            (ReaperAction::Sleep(_), ReaperEvent::Woke) => ReaperAction::Sweep,
            (ReaperAction::Sweep, ReaperEvent::Reported(SweepReport::Swept)) => ReaperAction::Sleep(
                self.interval,
            ),
            _ => ReaperAction::Stop,
        };
    }
}

/// Does the work of a build and hands back its guard, which is held until the
/// work is done even if whoever asked for it has gone.
pub fn with_build_guard<T, G, F: FnOnce() -> T>(guard: G, work: F) -> (done: (T, G))
    requires
        work.requires(()),
    ensures
        work.ensures((), done.0),
        done.1 == guard,
{
    let result = work();
    (result, guard)
}

/// A reaper that has stopped stays stopped.
pub proof fn law_stopped_reaper_stays_stopped(reaper: ReaperView, events: Seq<ReaperEvent>)
    requires
        reaper.doing == ReaperAction::Stop,
    ensures
        reaper.after_all(events).doing == ReaperAction::Stop,
    decreases events.len(),
{
    if events.len() > 0 {
        law_stopped_reaper_stays_stopped(reaper, events.drop_last());
    }
}

/// A reaper outlives neither its cache nor a sweep that failed.
pub proof fn law_reaper_ends_with_its_cache(
    reaper: ReaperView,
    before: Seq<ReaperEvent>,
    report: SweepReport,
    after: Seq<ReaperEvent>,
)
    requires
        report != SweepReport::Swept,
    ensures
        reaper.after_all(before.push(ReaperEvent::Reported(report)) + after).doing
            == ReaperAction::Stop,
    decreases after.len(),
{
    let reported = before.push(ReaperEvent::Reported(report));
    if after.len() == 0 {
        assert(reported + after =~= reported);
        assert(reported.drop_last() =~= before);
    } else {
        law_reaper_ends_with_its_cache(reaper, before, report, after.drop_last());
        assert((reported + after).drop_last() =~= reported + after.drop_last());
    }
}

/// A reaper sweeps when it wakes from a sleep and at no other time, and sleeps on
/// when a sweep found its cache and at no other time. Its interval stays, and it
/// sleeps no less and no more.
pub proof fn law_reaper_sleeps_and_sweeps_in_turn(reaper: ReaperView, event: ReaperEvent)
    ensures
        reaper.after(event).doing is Sweep <==> reaper.doing is Sleep && event is Woke,
        reaper.after(event).doing is Sleep <==> reaper.doing is Sweep && event
            == ReaperEvent::Reported(SweepReport::Swept),
        reaper.after(event).doing matches ReaperAction::Sleep(nanos) ==> nanos
            == reaper.interval as u128,
        reaper.after(event).interval == reaper.interval,
{
}

/// The interval is the longest that is neither longer than the idle timeout nor
/// longer than a minute.
pub proof fn law_interval_is_the_longest_allowed(idle_timeout: nat, other: nat)
    ensures
        reap_interval(idle_timeout) <= idle_timeout,
        reap_interval(idle_timeout) <= 60_000_000_000,
        other <= idle_timeout && other <= 60_000_000_000 ==> other <= reap_interval(idle_timeout),
{
}

/// Whatever happens, every sleep of a reaper lasts its interval, which is neither
/// nothing, nor longer than the idle timeout, nor longer than a minute.
pub proof fn law_reaper_sleeps_its_interval(
    idle_timeout: nat,
    reaper: ReaperView,
    events: Seq<ReaperEvent>,
)
    requires
        0 < idle_timeout,
        reaper.interval == reap_interval(idle_timeout),
        reaper.doing == ReaperAction::Sleep(reap_interval(idle_timeout) as u128),
    ensures
        0 < reaper.interval <= idle_timeout,
        reaper.interval <= MAX_REAP_INTERVAL_NANOS,
        reaper.after_all(events).interval == reaper.interval,
        reaper.after_all(events).doing matches ReaperAction::Sleep(nanos) ==> nanos
            == reaper.interval,
    decreases events.len(),
{
    if events.len() > 0 {
        law_reaper_sleeps_its_interval(idle_timeout, reaper, events.drop_last());
    }
}

/// As long as the cache is there, the reaper goes on: a sleep, a sweep, and again.
pub proof fn law_reaper_goes_on(reaper: ReaperView, rounds: nat)
    requires
        reaper.doing is Sleep,
    ensures
        reaper.after_all(rounds_of(rounds)).doing is Sleep,
        reaper.after_all(rounds_of(rounds).push(ReaperEvent::Woke)).doing == ReaperAction::Sweep,
    decreases rounds,
{
    let events = rounds_of(rounds);
    assert(events.push(ReaperEvent::Woke).drop_last() =~= events);
    if rounds > 0 {
        let earlier = rounds_of((rounds - 1) as nat);
        law_reaper_goes_on(reaper, (rounds - 1) as nat);
        assert(events.drop_last() =~= earlier.push(ReaperEvent::Woke));
        assert(events.last() == ReaperEvent::Reported(SweepReport::Swept));
    }
}

/// So many sleeps, each with a sweep of a cache that is there after it.
pub open spec fn rounds_of(rounds: nat) -> Seq<ReaperEvent>
    decreases rounds,
{
    if rounds == 0 {
        Seq::empty()
    } else {
        rounds_of((rounds - 1) as nat).push(ReaperEvent::Woke).push(
            ReaperEvent::Reported(SweepReport::Swept),
        )
    }
}

} // verus!
