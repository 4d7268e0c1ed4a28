use yab_world::physics::{next_state, PhysicsObjectControls, PhysicsObjectState, StateStep};

fn step(stop_horizontal: bool, fall: bool, steer: bool, jump: u8, stop_vertical: bool, stop_all: bool) -> StateStep {
    StateStep { stop_horizontal, fall, steer, jump, stop_vertical, stop_all }
}

fn forward() -> PhysicsObjectControls {
    let mut c = PhysicsObjectControls::new();
    c.forward = true;
    c
}

#[test]
fn new_controls_press_nothing() {
    let c = PhysicsObjectControls::new();
    assert!(!c.is_moving());
    assert!(!c.is_jumping());
    assert!(!c.is_ducking());
    let mut d = c;
    d.down = true;
    d.up = true;
    assert!(d.is_ducking());
    assert!(!d.is_jumping());
    assert!(!d.is_moving());
    d.left = true;
    assert!(d.is_moving());
}

#[test]
fn a_standing_object_starts_walking_or_falls() {
    let idle = PhysicsObjectControls::new();
    let still = step(true, false, false, 0, false, false);
    assert_eq!(next_state(PhysicsObjectState::Stopped, true, &idle), (PhysicsObjectState::Stopped, still));
    assert_eq!(next_state(PhysicsObjectState::Stopped, true, &forward()), (PhysicsObjectState::Moving, still));
    assert_eq!(next_state(PhysicsObjectState::Stopped, false, &forward()), (PhysicsObjectState::Flying, still));
}

#[test]
fn a_walking_object_stops_steers_or_falls() {
    let idle = PhysicsObjectControls::new();
    assert_eq!(
        next_state(PhysicsObjectState::Moving, true, &idle),
        (PhysicsObjectState::Stopped, step(true, false, false, 0, false, false))
    );
    assert_eq!(
        next_state(PhysicsObjectState::Moving, true, &forward()),
        (PhysicsObjectState::Moving, step(false, false, true, 0, false, false))
    );
    assert_eq!(
        next_state(PhysicsObjectState::Moving, false, &forward()),
        (PhysicsObjectState::Flying, step(false, false, true, 0, false, false))
    );
}

#[test]
fn a_flying_object_falls_and_lands() {
    let idle = PhysicsObjectControls::new();
    assert_eq!(
        next_state(PhysicsObjectState::Flying, false, &idle),
        (PhysicsObjectState::Flying, step(false, true, true, 0, false, false))
    );
    assert_eq!(
        next_state(PhysicsObjectState::Flying, true, &forward()),
        (PhysicsObjectState::Moving, step(false, true, true, 0, true, false))
    );
    assert_eq!(
        next_state(PhysicsObjectState::Flying, true, &idle),
        (PhysicsObjectState::Stopped, step(false, true, true, 0, false, true))
    );
}
