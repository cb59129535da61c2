use game_of_life::schedule::{recording_complete, Controls, TickPlan};

fn plan(run_sim: bool, record: bool, still: bool, elapsed: u128) -> TickPlan {
    let c = Controls { run_sim, record, output_still_frame: still, next_simulation: 250 };
    c.plan(elapsed)
}

fn tp(step: bool, reset_timer: bool, emit_frame: bool) -> TickPlan {
    TickPlan { step, reset_timer, emit_frame }
}

#[test]
fn paused_simulation_does_nothing() {
    for record in [false, true] {
        for still in [false, true] {
            for elapsed in [0u128, 249, 250, 10_000] {
                assert_eq!(plan(false, record, still, elapsed), tp(false, false, false));
            }
        }
    }
}

#[test]
fn unrecorded_run_steps_on_interval() {
    assert_eq!(plan(true, false, false, 249), tp(false, false, false));
    assert_eq!(plan(true, false, false, 250), tp(true, true, false));
    assert_eq!(plan(true, false, true, 0), tp(false, false, false));
    assert_eq!(plan(true, false, true, 400), tp(true, true, false));
}

#[test]
fn recorded_run_steps_every_frame() {
    assert_eq!(plan(true, true, false, 0), tp(true, false, true));
    assert_eq!(plan(true, true, false, 300), tp(true, false, true));
}

#[test]
fn recorded_still_frames_step_on_interval() {
    assert_eq!(plan(true, true, true, 100), tp(false, false, true));
    assert_eq!(plan(true, true, true, 250), tp(true, true, true));
}

#[test]
fn run_key_toggles_unless_recording() {
    let mut c = Controls::new(false, false, 100);
    assert!(!c.run_sim);
    assert!(c.editing_allowed());
    c.press_run();
    assert!(c.run_sim);
    assert!(!c.editing_allowed());
    c.press_run();
    assert!(!c.run_sim);

    let mut r = Controls::new(true, true, 100);
    r.press_run();
    assert!(r.run_sim);
    r.press_run();
    assert!(r.run_sim);
    assert_eq!(r.next_simulation, 100);
    assert!(r.output_still_frame);
}

#[test]
fn recording_stops_at_target_length() {
    assert!(!recording_complete(999, Some(1000)));
    assert!(recording_complete(1000, Some(1000)));
    assert!(recording_complete(5000, Some(1000)));
    assert!(!recording_complete(u128::MAX, None));
}
