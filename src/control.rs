use vstd::prelude::*;

verus! {

/// Where the controller stands between cycles.
#[derive(PartialEq, Eq, Structural, Debug, Clone, Copy)]
pub enum ControlState {
    /// Cycles run and may change CPU states.
    Running,
    /// Every CPU has been brought online and no decision is taken.
    Paused,
    /// The controller has finished.
    Stopped,
}

/// What reaches the controller between cycles.
#[derive(PartialEq, Eq, Structural, Debug, Clone, Copy)]
pub enum ControlEvent {
    /// The cycle interval has passed.
    Tick,
    /// A request to pause, or to resume after a pause.
    TogglePause,
    /// A request to finish.
    Shutdown,
}

/// What the driver of the loop is to do next.
#[derive(PartialEq, Eq, Structural, Debug, Clone, Copy)]
pub enum ControlAction {
    /// Sample, decide and apply one cycle.
    RunCycle,
    /// Force every CPU online, then wait for the next event.
    OnlineAllAndWait,
    /// Wait for the next event.
    Wait,
    /// Force every CPU online and finish.
    OnlineAllAndStop,
}

/// The controller's transition on one event.
pub open spec fn control_next(state: ControlState, event: ControlEvent) -> (ControlState, ControlAction) {
    match (state, event) {
        (ControlState::Stopped, _) => (ControlState::Stopped, ControlAction::Wait),
        (_, ControlEvent::Shutdown) => (ControlState::Stopped, ControlAction::OnlineAllAndStop),
        (ControlState::Running, ControlEvent::Tick) => (ControlState::Running, ControlAction::RunCycle),
        (ControlState::Running, ControlEvent::TogglePause) => (
            ControlState::Paused,
            ControlAction::OnlineAllAndWait,
        ),
        (ControlState::Paused, ControlEvent::Tick) => (ControlState::Paused, ControlAction::Wait),
        (ControlState::Paused, ControlEvent::TogglePause) => (ControlState::Running, ControlAction::Wait),
    }
}

/// Decides what an event leads to: a shutdown forces every CPU online and
/// finishes; a pause forces every CPU online and suspends the cycles until
/// the next toggle; a tick runs a cycle unless paused.
pub fn control_step(state: ControlState, event: ControlEvent) -> (r: (ControlState, ControlAction))
    ensures
        r == control_next(state, event),
{
    match (state, event) {
        (ControlState::Stopped, _) => (ControlState::Stopped, ControlAction::Wait),
        (_, ControlEvent::Shutdown) => (ControlState::Stopped, ControlAction::OnlineAllAndStop),
        (ControlState::Running, ControlEvent::Tick) => (ControlState::Running, ControlAction::RunCycle),
        (ControlState::Running, ControlEvent::TogglePause) => (
            ControlState::Paused,
            ControlAction::OnlineAllAndWait,
        ),
        (ControlState::Paused, ControlEvent::Tick) => (ControlState::Paused, ControlAction::Wait),
        (ControlState::Paused, ControlEvent::TogglePause) => (ControlState::Running, ControlAction::Wait),
    }
}

} // verus!
