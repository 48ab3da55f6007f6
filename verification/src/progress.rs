//! Progress notifications from a running computation.
use vstd::prelude::*;

verus! {

/// A named part of a computation, with the number of ticks it announces.
#[derive(Debug, Clone, Copy)]
pub struct Phase {
    pub name: &'static str,
    pub total: u64,
}

/// What a reporter has been told.
pub enum ProgressEvent {
    /// The names and totals of the phases to come.
    Phases(Seq<(Seq<char>, u64)>),
    /// A named phase begins, with the expected number of ticks.
    Start(Seq<char>, u64),
    /// One unit of work is done.
    Tick,
    /// The current phase ends.
    End,
    /// A named point has been reached.
    Milestone(Seq<char>),
}

/// Receives progress notifications.
pub trait ProgressReporter {
    /// Whether the reporter keeps what it is told.
    open spec fn records(&self) -> bool {
        false
    }

    /// What a reporter that keeps it has been told, in order.
    open spec fn told(&self) -> Seq<ProgressEvent> {
        Seq::empty()
    }

    /// The phases to come, in order.
    fn set_phases(&mut self, phases: &[Phase])
        ensures
            final(self).records() == old(self).records(),
            old(self).records() ==> final(self).told() == old(self).told().push(
                ProgressEvent::Phases(announced(phases@)),
            ),
    ;

    /// A named phase begins, with the expected number of ticks.
    fn start_phase(&mut self, name: &str, total: u64)
        ensures
            final(self).records() == old(self).records(),
            old(self).records() ==> final(self).told() == old(self).told().push(
                ProgressEvent::Start(name@, total),
            ),
    ;

    /// One unit of work is done.
    fn tick(&mut self)
        ensures
            final(self).records() == old(self).records(),
            old(self).records() ==> final(self).told() == old(self).told().push(
                ProgressEvent::Tick,
            ),
    ;

    /// The current phase ends.
    fn end_phase(&mut self)
        ensures
            final(self).records() == old(self).records(),
            old(self).records() ==> final(self).told() == old(self).told().push(
                ProgressEvent::End,
            ),
    ;

    /// A named point within a phase has been reached.
    fn milestone(&mut self, name: &str)
        ensures
            final(self).records() == old(self).records(),
            old(self).records() ==> final(self).told() == old(self).told().push(
                ProgressEvent::Milestone(name@),
            ),
    ;
}

/// The names and totals of phases.
pub open spec fn announced(phases: Seq<Phase>) -> Seq<(Seq<char>, u64)> {
    Seq::new(phases.len(), |i: int| (phases[i].name@, phases[i].total))
}

/// Between two moments a reporter has been told just these events.
pub open spec fn heard<R: ProgressReporter>(before: R, after: R, events: Seq<ProgressEvent>) -> bool {
    &&& after.records() == before.records()
    &&& before.records() ==> after.told() == before.told() + events
}

/// So many units of work.
pub open spec fn ticks(n: nat) -> Seq<ProgressEvent> {
    Seq::new(n, |i: int| ProgressEvent::Tick)
}

/// A phase of `total` ticks in which `n` units of work are done.
pub open spec fn phase(name: Seq<char>, total: u64, n: nat) -> Seq<ProgressEvent> {
    seq![ProgressEvent::Start(name, total)] + ticks(n) + seq![ProgressEvent::End]
}

/// One stretch of events after another.
pub proof fn lemma_heard_join<R: ProgressReporter>(
    a: R,
    b: R,
    c: R,
    first: Seq<ProgressEvent>,
    second: Seq<ProgressEvent>,
)
    requires
        heard(a, b, first),
        heard(b, c, second),
    ensures
        heard(a, c, first + second),
{
    assert(a.told() + (first + second) =~= a.told() + first + second);
}

/// A reporter that does nothing.
#[derive(Debug, Default, Clone, Copy)]
pub struct NoopProgress;

impl ProgressReporter for NoopProgress {
    fn set_phases(&mut self, phases: &[Phase]) {
    }

    fn start_phase(&mut self, name: &str, total: u64) {
    }

    fn tick(&mut self) {
    }

    fn end_phase(&mut self) {
    }

    fn milestone(&mut self, name: &str) {
    }
}

/// Thins out the ticks of a phase to about a hundred updates.
#[derive(Debug, Clone, Copy)]
pub struct Throttle {
    /// Ticks since the phase began.
    pub counter: u64,
    /// An update follows every so many ticks.
    pub tick_every: u64,
}

impl Throttle {
    /// There is a step between updates.
    pub open spec fn wf(self) -> bool {
        self.tick_every >= 1
    }

    /// A phase of `total` ticks begins.
    pub fn start(total: u64) -> (t: Throttle)
        ensures
            t.wf(),
            t.counter == 0,
            t.tick_every == if total / 100 >= 1 { total / 100 } else { 1 },
            t.tick_every == 1 || 100 * t.tick_every <= total,
            total < 100 * (t.tick_every + 1),
    {
        let step: u64 = total / 100;
        Throttle { counter: 0, tick_every: if step >= 1 { step } else { 1 } }
    }

    /// Count a tick.  The result is the position to show, where an update is due.
    pub fn tick(&mut self) -> (position: Option<u64>)
        requires
            old(self).wf(),
            old(self).counter < u64::MAX,
        ensures
            final(self).wf(),
            final(self).tick_every == old(self).tick_every,
            final(self).counter == old(self).counter + 1,
            position == if final(self).counter % old(self).tick_every == 0 {
                Some(final(self).counter)
            } else {
                None::<u64>
            },
    {
        self.counter = self.counter + 1;
        if self.counter % self.tick_every == 0 {
            Some(self.counter)
        } else {
            None
        }
    }
}

/// A phase is its start, so many ticks, and its end.
pub proof fn law_phase(name: Seq<char>, total: u64, n: nat)
    ensures
        phase(name, total, n).len() == n + 2,
        phase(name, total, n)[0] == ProgressEvent::Start(name, total),
        forall|i: int| 1 <= i <= n ==> #[trigger] phase(name, total, n)[i] is Tick,
        phase(name, total, n)[n as int + 1] is End,
{
}

/// A reporter with a record has been told exactly these events, in order, after
/// those before.
pub proof fn law_heard<R: ProgressReporter>(before: R, after: R, events: Seq<ProgressEvent>)
    requires
        before.records(),
        heard(before, after, events),
    ensures
        after.records(),
        after.told().len() == before.told().len() + events.len(),
        after.told().take(before.told().len() as int) == before.told(),
        after.told().skip(before.told().len() as int) == events,
{
    assert(after.told().take(before.told().len() as int) =~= before.told());
    assert(after.told().skip(before.told().len() as int) =~= events);
}

/// What is announced of each phase is its name and its total, in order.
pub proof fn law_announced(phases: Seq<Phase>, i: int)
    requires
        0 <= i < phases.len(),
    ensures
        announced(phases).len() == phases.len(),
        announced(phases)[i].0 == phases[i].name@,
        announced(phases)[i].1 == phases[i].total,
{
}

} // verus!
