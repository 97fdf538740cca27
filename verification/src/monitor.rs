//! The expiry monitor: the loop that lifts suspensions whose time is up.
//!
//! The monitor itself asks nothing of the table or of the guild. It says
//! what is to be done next, and is told what came of it: claim what is due;
//! restore each claimed record in the order in which the table gave them;
//! sleep for the interval; begin again. Once started it never stops, and
//! nothing that goes wrong with one record or one claim ends the loop.

use vstd::prelude::*;
use crate::error::PersistenceError;
use crate::restore::{RestoreOutcome, RestoreOutcomeView};
use crate::suspension::{Suspension, SuspensionView, views};

verus! {

/// Where the monitor stands.
#[derive(Debug, Clone, Copy, PartialEq, Eq, Structural)]
pub enum MonitorPhase {
    /// Not started.
    Idle,
    /// Waiting for the table to hand over what is due.
    Scanning,
    /// Waiting for the restoration of the record in turn.
    Restoring,
    /// Waiting for the interval to pass.
    Sleeping,
}

/// What the caller is to do next.
#[derive(Debug, PartialEq, Eq)]
pub enum MonitorAction {
    /// Nothing: the monitor has not been started.
    Nothing,
    /// Claim from the table the records that are due now.
    ClaimDue,
    /// Restore the roles that this record remembers.
    Restore(Suspension),
    /// Sleep for this many seconds.
    Sleep(u64),
}

/// What came of the last action.
#[derive(Debug, PartialEq, Eq)]
pub enum MonitorEvent {
    /// The table handed over these records.
    Claimed(Vec<Suspension>),
    /// The table could not be read.
    ClaimFailed(PersistenceError),
    /// The restoration of the record in turn ended, in this way.
    Restored(RestoreOutcome),
    /// The sleep is over.
    Woke,
}

/// A start was asked for while the monitor was running.
#[derive(Debug, Clone, Copy, PartialEq, Eq, Structural)]
pub enum MonitorError {
    AlreadyRunning,
}

/// The monitor.
#[derive(Debug)]
pub struct Monitor {
    interval: u64,
    phase: MonitorPhase,
    batch: Vec<Suspension>,
    position: usize,
}

/// The monitor as a mathematical value.
pub struct MonitorView {
    /// The seconds to sleep between two scans.
    pub interval: u64,
    pub phase: MonitorPhase,
    /// The records of the claim that is being worked off.
    pub batch: Seq<SuspensionView>,
    /// How many of `batch` have been restored.
    pub position: nat,
}

/// An action as a mathematical value.
pub enum MonitorActionView {
    Nothing,
    ClaimDue,
    Restore(SuspensionView),
    Sleep(u64),
}

/// An event as a mathematical value.
pub enum MonitorEventView {
    Claimed(Seq<SuspensionView>),
    ClaimFailed(PersistenceError),
    Restored(RestoreOutcomeView),
    Woke,
}

impl View for Monitor {
    type V = MonitorView;

    closed spec fn view(&self) -> MonitorView {
        MonitorView {
            interval: self.interval,
            phase: self.phase,
            batch: views(self.batch@),
            position: self.position as nat,
        }
    }
}

impl View for MonitorAction {
    type V = MonitorActionView;

    open spec fn view(&self) -> MonitorActionView {
        match *self {
            MonitorAction::Nothing => MonitorActionView::Nothing,
            MonitorAction::ClaimDue => MonitorActionView::ClaimDue,
            MonitorAction::Restore(record) => MonitorActionView::Restore(record@),
            MonitorAction::Sleep(seconds) => MonitorActionView::Sleep(seconds),
        }
    }
}

impl View for MonitorEvent {
    type V = MonitorEventView;

    open spec fn view(&self) -> MonitorEventView {
        match *self {
            MonitorEvent::Claimed(batch) => MonitorEventView::Claimed(views(batch@)),
            MonitorEvent::ClaimFailed(e) => MonitorEventView::ClaimFailed(e),
            MonitorEvent::Restored(outcome) => MonitorEventView::Restored(outcome@),
            MonitorEvent::Woke => MonitorEventView::Woke,
        }
    }
}

/// What holds of every monitor: while it restores, a record is in turn;
/// otherwise it holds no records.
pub open spec fn monitor_wf(m: MonitorView) -> bool {
    if m.phase is Restoring {
        m.position < m.batch.len()
    } else {
        m.batch.len() == 0 && m.position == 0
    }
}

/// A monitor that has not been started.
pub open spec fn idle_monitor(interval: u64) -> MonitorView {
    MonitorView { interval, phase: MonitorPhase::Idle, batch: Seq::empty(), position: 0 }
}

/// The monitor asleep, with no records at hand.
pub open spec fn asleep(m: MonitorView) -> MonitorView {
    MonitorView { phase: MonitorPhase::Sleeping, batch: Seq::empty(), position: 0, ..m }
}

/// What the monitor in state `m` waits for.
pub open spec fn action_of(m: MonitorView) -> MonitorActionView {
    match m.phase {
        MonitorPhase::Idle => MonitorActionView::Nothing,
        MonitorPhase::Scanning => MonitorActionView::ClaimDue,
        MonitorPhase::Restoring => MonitorActionView::Restore(m.batch[m.position as int]),
        MonitorPhase::Sleeping => MonitorActionView::Sleep(m.interval),
    }
}

/// The monitor after `event`.
///
/// A claim that gave records turns to the first of them; one that gave none,
/// or failed, goes to sleep. The end of a restoration, however it ended,
/// turns to the next record, and to sleep after the last. Waking up begins
/// the next scan. An event that the monitor is not waiting for changes
/// nothing.
pub open spec fn after_event(m: MonitorView, event: MonitorEventView) -> MonitorView {
    match (m.phase, event) {
        (MonitorPhase::Scanning, MonitorEventView::Claimed(batch)) => if batch.len() > 0 {
            MonitorView { phase: MonitorPhase::Restoring, batch, position: 0, ..m }
        } else {
            asleep(m)
        },
        (MonitorPhase::Scanning, MonitorEventView::ClaimFailed(_)) => asleep(m),
        (MonitorPhase::Restoring, MonitorEventView::Restored(_)) => if m.position + 1
            < m.batch.len() {
            MonitorView { position: m.position + 1, ..m }
        } else {
            asleep(m)
        },
        (MonitorPhase::Sleeping, MonitorEventView::Woke) => MonitorView {
            phase: MonitorPhase::Scanning,
            ..m
        },
        _ => m,
    }
}

impl Monitor {
    /// The monitor's invariant.
    pub open spec fn wf(&self) -> bool {
        monitor_wf(self@)
    }

    /// A monitor that sleeps `interval_seconds` between two scans. It is
    /// idle until it is started.
    pub fn new(interval_seconds: u64) -> (monitor: Monitor)
        ensures
            monitor.wf(),
            monitor@ == idle_monitor(interval_seconds),
    {
        let monitor = Monitor {
            interval: interval_seconds,
            phase: MonitorPhase::Idle,
            batch: Vec::new(),
            position: 0,
        };
        assert(monitor@.batch =~= Seq::<SuspensionView>::empty());
        monitor
    }

    /// Where the monitor stands.
    pub fn phase(&self) -> (phase: MonitorPhase)
        ensures
            phase == self@.phase,
    {
        self.phase
    }

    /// What the monitor waits for.
    pub fn pending(&self) -> (action: MonitorAction)
        requires
            self.wf(),
        ensures
            action@ == action_of(self@),
    {
        match self.phase {
            MonitorPhase::Idle => MonitorAction::Nothing,
            MonitorPhase::Scanning => MonitorAction::ClaimDue,
            MonitorPhase::Restoring => MonitorAction::Restore(self.batch[self.position].clone()),
            MonitorPhase::Sleeping => MonitorAction::Sleep(self.interval),
        }
    }

    /// Takes in what came of the last action, and says what is to be done
    /// next. A monitor that was started is never idle again.
    pub fn step(&mut self, event: MonitorEvent) -> (action: MonitorAction)
        requires
            old(self).wf(),
        ensures
            final(self).wf(),
            final(self)@ == after_event(old(self)@, event@),
            action@ == action_of(final(self)@),
            final(self)@.phase is Idle <==> old(self)@.phase is Idle,
    {
        match self.phase {
            MonitorPhase::Idle => {},
            MonitorPhase::Scanning => {
                match event {
                    MonitorEvent::Claimed(batch) => {
                        if batch.len() > 0 {
                            self.batch = batch;
                            self.position = 0;
                            self.phase = MonitorPhase::Restoring;
                        } else {
                            self.phase = MonitorPhase::Sleeping;
                        }
                    },
                    MonitorEvent::ClaimFailed(_) => {
                        self.phase = MonitorPhase::Sleeping;
                    },
                    _ => {},
                }
            },
            MonitorPhase::Restoring => {
                match event {
                    MonitorEvent::Restored(_) => {
                        let count = self.batch.len();
                        if self.position + 1 < count {
                            self.position = self.position + 1;
                        } else {
                            self.batch = Vec::new();
                            self.position = 0;
                            self.phase = MonitorPhase::Sleeping;
                        }
                    },
                    _ => {},
                }
            },
            MonitorPhase::Sleeping => {
                match event {
                    MonitorEvent::Woke => {
                        self.phase = MonitorPhase::Scanning;
                    },
                    _ => {},
                }
            },
        }
        assert(self@.batch =~= after_event(old(self)@, event@).batch);
        self.pending()
    }
}

/// Starts the monitor. An idle monitor begins its first scan, and the answer
/// is the first thing to do: claim what is due. A monitor that is running
/// stays as it is, and the answer is `AlreadyRunning`: there is never a
/// second loop.
pub fn start_monitoring(monitor: &mut Monitor) -> (started: Result<MonitorAction, MonitorError>)
    requires
        old(monitor).wf(),
    ensures
        final(monitor).wf(),
        match started {
            Ok(action) => {
                &&& old(monitor)@.phase is Idle
                &&& final(monitor)@ == MonitorView {
                    phase: MonitorPhase::Scanning,
                    ..old(monitor)@
                }
                &&& action@ == MonitorActionView::ClaimDue
            },
            Err(e) => {
                &&& e == MonitorError::AlreadyRunning
                &&& !(old(monitor)@.phase is Idle)
                &&& final(monitor)@ == old(monitor)@
            },
        },
{
    match monitor.phase {
        MonitorPhase::Idle => {
            monitor.phase = MonitorPhase::Scanning;
            Ok(MonitorAction::ClaimDue)
        },
        _ => Err(MonitorError::AlreadyRunning),
    }
}

/// The monitor after the events `events`, in their order.
pub open spec fn after_events(m: MonitorView, events: Seq<MonitorEventView>) -> MonitorView
    decreases events.len(),
{
    if events.len() == 0 {
        m
    } else {
        after_event(after_events(m, events.drop_last()), events.last())
    }
}

/// The events that report the end of one restoration for each of
/// `outcomes`.
pub open spec fn restorations(outcomes: Seq<RestoreOutcomeView>) -> Seq<MonitorEventView> {
    outcomes.map_values(|o: RestoreOutcomeView| MonitorEventView::Restored(o))
}

/// A monitor that was started never stops: whatever events reach it, it is
/// not idle afterwards, and it waits for something.
pub proof fn lemma_monitor_never_stops(m: MonitorView, events: Seq<MonitorEventView>)
    requires
        monitor_wf(m),
        !(m.phase is Idle),
    ensures
        monitor_wf(after_events(m, events)),
        !(after_events(m, events).phase is Idle),
        action_of(after_events(m, events)) != MonitorActionView::Nothing,
    decreases events.len(),
{
    if events.len() > 0 {
        lemma_monitor_never_stops(m, events.drop_last());
    }
}

/// The records of one claim are restored in the order in which the table
/// gave them, each once, whatever the restorations come to: after the claim
/// and the end of `outcomes.len()` restorations the monitor waits for the
/// restoration of the record at that place, and after the last one it goes
/// to sleep for its interval.
pub proof fn lemma_batch_is_worked_off_in_order(
    m: MonitorView,
    batch: Seq<SuspensionView>,
    outcomes: Seq<RestoreOutcomeView>,
)
    requires
        monitor_wf(m),
        m.phase is Scanning,
        outcomes.len() <= batch.len(),
        batch.len() > 0,
    ensures
        ({
            let after = after_events(
                after_event(m, MonitorEventView::Claimed(batch)),
                restorations(outcomes),
            );
            if outcomes.len() < batch.len() {
                &&& after == MonitorView {
                    phase: MonitorPhase::Restoring,
                    batch,
                    position: outcomes.len(),
                    ..m
                }
                &&& action_of(after) == MonitorActionView::Restore(batch[outcomes.len() as int])
            } else {
                &&& after == asleep(m)
                &&& action_of(after) == MonitorActionView::Sleep(m.interval)
            }
        }),
    decreases outcomes.len(),
{
    let events = restorations(outcomes);
    if outcomes.len() > 0 {
        lemma_batch_is_worked_off_in_order(m, batch, outcomes.drop_last());
        assert(events.drop_last() =~= restorations(outcomes.drop_last()));
        assert(events.last() == MonitorEventView::Restored(outcomes.last()));
    }
}

} // verus!
