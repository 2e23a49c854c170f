//! Start, pause and exit of a background loop. The loop itself runs
//! outside; at each check point it reports what its control channel held
//! and is told here what to do next.

use vstd::prelude::*;

verus! {

/// What a handle sends to its loop.
#[derive(Clone, Copy, Debug, PartialEq, Eq, Structural)]
pub enum ControlSignal {
    /// Run, pausing this many microseconds between units of work.
    Start(u64),
    /// Stop for good.
    Exit,
}

/// The state of a loop.
#[derive(Clone, Copy, Debug, PartialEq, Eq, Structural)]
pub enum OperatingState {
    /// Waiting to be started.
    Paused,
    /// Working, with this many microseconds between units of work.
    Run(u64),
    /// Stopped for good.
    ShutDown,
}

/// How a loop looks at its control channel at a check point.
#[derive(Clone, Copy, Debug, PartialEq, Eq, Structural)]
pub enum Watch {
    /// Wait until a signal comes.
    Block,
    /// Take a signal if one is there, and go on if none is.
    Poll,
    /// Do not look: the loop has ended.
    Ignore,
}

/// What a loop does after a check point.
#[derive(Clone, Copy, Debug, PartialEq, Eq, Structural)]
pub enum Directive {
    /// Go to the next check point.
    Recheck,
    /// Do one unit of work, sleep this many microseconds if it is not zero,
    /// then go to the next check point.
    Work(u64),
    /// Return.
    Stop,
}

impl OperatingState {
    /// The state after a signal: `Exit` ends the loop, `Start` sets it
    /// running with the interval given, whatever the state was.
    pub open spec fn after(self, signal: ControlSignal) -> OperatingState {
        match signal {
            ControlSignal::Exit => OperatingState::ShutDown,
            ControlSignal::Start(interval) => OperatingState::Run(interval),
        }
    }

    /// How the channel is looked at in this state: a paused loop waits, a
    /// running loop polls, a loop that was shut down does neither.
    pub open spec fn watch_spec(self) -> Watch {
        match self {
            OperatingState::Paused => Watch::Block,
            OperatingState::Run(_) => Watch::Poll,
            OperatingState::ShutDown => Watch::Ignore,
        }
    }

    /// The state and the directive after a check point at which the channel
    /// held `signal`, or nothing. A loop that was shut down stops. A paused
    /// loop takes the signal and checks again. A running loop takes the
    /// signal, if any, and then works unless it was told to exit.
    pub open spec fn advance_spec(self, signal: Option<ControlSignal>) -> (
        OperatingState,
        Directive,
    ) {
        let next = match signal {
            Some(signal) => self.after(signal),
            None => self,
        };
        match self {
            OperatingState::ShutDown => (OperatingState::ShutDown, Directive::Stop),
            OperatingState::Paused => (next, Directive::Recheck),
            OperatingState::Run(_) => match next {
                OperatingState::Run(interval) => (next, Directive::Work(interval)),
                _ => (next, Directive::Stop),
            },
        }
    }

    /// The state after a signal.
    pub fn handle_control_signal(self, signal: ControlSignal) -> (next: OperatingState)
        ensures
            next == self.after(signal),
    {
        match signal {
            ControlSignal::Exit => OperatingState::ShutDown,
            ControlSignal::Start(interval) => OperatingState::Run(interval),
        }
    }

    /// How to look at the control channel now.
    pub fn watch(self) -> (w: Watch)
        ensures
            w == self.watch_spec(),
    {
        match self {
            OperatingState::Paused => Watch::Block,
            OperatingState::Run(_) => Watch::Poll,
            OperatingState::ShutDown => Watch::Ignore,
        }
    }

    /// What to do after a check point at which the channel held `signal`,
    /// or nothing.
    pub fn advance(self, signal: Option<ControlSignal>) -> (r: (OperatingState, Directive))
        ensures
            r == self.advance_spec(signal),
    {
        let next = match signal {
            Some(signal) => self.handle_control_signal(signal),
            None => self,
        };
        match self {
            OperatingState::ShutDown => (OperatingState::ShutDown, Directive::Stop),
            OperatingState::Paused => (next, Directive::Recheck),
            OperatingState::Run(_) => match next {
                OperatingState::Run(interval) => (next, Directive::Work(interval)),
                _ => (next, Directive::Stop),
            },
        }
    }
}

/// Once shut down, a loop stays shut down and stops, whatever its channel
/// holds.
pub proof fn lemma_shutdown_is_final(signal: Option<ControlSignal>)
    ensures
        OperatingState::ShutDown.advance_spec(signal) == (
            OperatingState::ShutDown,
            Directive::Stop,
        ),
{
}

/// An exit signal shuts the loop down from every state, and the loop stops
/// at that check point or the next.
pub proof fn lemma_exit_stops(state: OperatingState, later: Option<ControlSignal>)
    ensures
        state.advance_spec(Some(ControlSignal::Exit)).0 == OperatingState::ShutDown,
        state.advance_spec(Some(ControlSignal::Exit)).1 == Directive::Stop || state.advance_spec(
            Some(ControlSignal::Exit),
        ).0.advance_spec(later).1 == Directive::Stop,
{
}

/// A loop works only while it is running, and then at the interval of its
/// state.
pub proof fn lemma_work_only_running(state: OperatingState, signal: Option<ControlSignal>)
    ensures
        state.advance_spec(signal).1 is Work ==> state is Run && state.advance_spec(signal).0
            == OperatingState::Run(state.advance_spec(signal).1->Work_0),
{
}

} // verus!
