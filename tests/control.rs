use cpu_hotplug::control::{control_step, ControlAction, ControlEvent, ControlState};

#[test]
fn running_ticks_run_cycles() {
    assert_eq!(
        control_step(ControlState::Running, ControlEvent::Tick),
        (ControlState::Running, ControlAction::RunCycle)
    );
}

#[test]
fn pause_onlines_everything_and_resume_restarts_cycles() {
    let (s, a) = control_step(ControlState::Running, ControlEvent::TogglePause);
    assert_eq!((s, a), (ControlState::Paused, ControlAction::OnlineAllAndWait));
    assert_eq!(control_step(s, ControlEvent::Tick), (ControlState::Paused, ControlAction::Wait));
    let (s, a) = control_step(s, ControlEvent::TogglePause);
    assert_eq!((s, a), (ControlState::Running, ControlAction::Wait));
}

#[test]
fn shutdown_onlines_everything_and_stops() {
    for s in [ControlState::Running, ControlState::Paused] {
        assert_eq!(
            control_step(s, ControlEvent::Shutdown),
            (ControlState::Stopped, ControlAction::OnlineAllAndStop)
        );
    }
    for e in [ControlEvent::Tick, ControlEvent::TogglePause, ControlEvent::Shutdown] {
        assert_eq!(control_step(ControlState::Stopped, e), (ControlState::Stopped, ControlAction::Wait));
    }
}
