//! The movement states of a physics object, the controls that steer it, and the state machine
//! that one physics step runs on them. Positions and velocities are floating point and stay
//! with the caller; the machine says which changes of velocity a step makes.

use vstd::prelude::*;

verus! {

/// How an object moves: standing, walking on the ground, or in the air.
#[derive(PartialEq, Eq, Structural, Hash, Debug, Copy, Clone)]
pub enum PhysicsObjectState {
    Stopped,
    Moving,
    Flying,
}

/// The keys that steer an object.
#[derive(PartialEq, Eq, Structural, Debug, Copy, Clone)]
pub struct PhysicsObjectControls {
    pub left: bool,
    pub right: bool,
    pub forward: bool,
    pub backward: bool,
    pub up: bool,
    pub down: bool,
    pub slower: bool,
}

/// Whether the controls move the object along the ground.
pub open spec fn spec_moving(c: PhysicsObjectControls) -> bool {
    c.left || c.right || c.forward || c.backward
}

impl PhysicsObjectControls {
    /// No key pressed.
    pub fn new() -> (r: PhysicsObjectControls)
        ensures
            !r.left && !r.right && !r.forward && !r.backward,
            !r.up && !r.down && !r.slower,
    {
        PhysicsObjectControls {
            left: false,
            right: false,
            forward: false,
            backward: false,
            up: false,
            down: false,
            slower: false,
        }
    }

    pub fn is_moving(&self) -> (r: bool)
        ensures
            r == spec_moving(*self),
    {
        self.left || self.right || self.forward || self.backward
    }

    /// Jumping is switched off: no control makes an object jump.
    pub fn is_jumping(&self) -> (r: bool)
        ensures
            !r,
    {
        false
    }

    pub fn is_ducking(&self) -> (r: bool)
        ensures
            r == self.down,
    {
        self.down
    }
}

/// The changes of velocity a physics step makes to a colliding object, applied in the order
/// of the fields: horizontal velocity to zero, gravity pulls, the controls steer (as for
/// the state the object had), a jump of `jump` times the jump velocity (lifting the object
/// off the ground), vertical velocity to zero, all velocity to zero.
#[derive(PartialEq, Eq, Structural, Debug, Copy, Clone)]
pub struct StateStep {
    pub stop_horizontal: bool,
    pub fall: bool,
    pub steer: bool,
    pub jump: u8,
    pub stop_vertical: bool,
    pub stop_all: bool,
}

/// A step that changes nothing but what the given flags say.
pub open spec fn step_of(stop_horizontal: bool, fall: bool, steer: bool, jump: u8, stop_vertical: bool, stop_all: bool) -> StateStep {
    StateStep { stop_horizontal, fall, steer, jump, stop_vertical, stop_all }
}

/// The state after one step of an object in `state`, and what the step does to its velocity:
/// - standing: it stops sideways; off the ground it flies, moved it walks, and a jump
///   makes it fly;
/// - walking: released controls stop it, a jump makes it fly with a double jump, otherwise
///   the controls steer it; off the ground it flies;
/// - flying: gravity pulls and the controls steer; on the ground it walks if moved (with no
///   vertical speed) and stands otherwise (with no speed at all).
pub open spec fn spec_next_state(state: PhysicsObjectState, on_ground: bool, moving: bool, jumping: bool) -> (PhysicsObjectState, StateStep) {
    match state {
        PhysicsObjectState::Stopped => if !on_ground {
            (PhysicsObjectState::Flying, step_of(true, false, false, 0, false, false))
        } else if moving {
            (PhysicsObjectState::Moving, step_of(true, false, false, 0, false, false))
        } else if jumping {
            (PhysicsObjectState::Flying, step_of(true, false, false, 1, false, false))
        } else {
            (PhysicsObjectState::Stopped, step_of(true, false, false, 0, false, false))
        },
        PhysicsObjectState::Moving => {
            let (s, step) = if !moving {
                (PhysicsObjectState::Stopped, step_of(true, false, false, 0, false, false))
            } else if jumping {
                (PhysicsObjectState::Flying, step_of(false, false, false, 2, false, false))
            } else {
                (PhysicsObjectState::Moving, step_of(false, false, true, 0, false, false))
            };
            (if !on_ground { PhysicsObjectState::Flying } else { s }, step)
        },
        PhysicsObjectState::Flying => if !on_ground {
            (PhysicsObjectState::Flying, step_of(false, true, true, 0, false, false))
        } else if moving {
            (PhysicsObjectState::Moving, step_of(false, true, true, 0, true, false))
        } else {
            (PhysicsObjectState::Stopped, step_of(false, true, true, 0, false, true))
        },
    }
}

/// One step of the movement state machine of a colliding object.
pub fn next_state(state: PhysicsObjectState, on_ground: bool, controls: &PhysicsObjectControls) -> (r: (PhysicsObjectState, StateStep))
    ensures
        r == spec_next_state(state, on_ground, spec_moving(*controls), false),
{
    let moving = controls.is_moving();
    let jumping = controls.is_jumping();
    let mut step = StateStep {
        stop_horizontal: false,
        fall: false,
        steer: false,
        jump: 0,
        stop_vertical: false,
        stop_all: false,
    };
    let mut next = state;
    match state {
        PhysicsObjectState::Stopped => {
            step.stop_horizontal = true;
            if !on_ground {
                next = PhysicsObjectState::Flying;
            } else if moving {
                next = PhysicsObjectState::Moving;
            } else if jumping {
                next = PhysicsObjectState::Flying;
                step.jump = 1;
            }
        },
        PhysicsObjectState::Moving => {
            if !moving {
                next = PhysicsObjectState::Stopped;
                step.stop_horizontal = true;
            } else if jumping {
                next = PhysicsObjectState::Flying;
                step.jump = 2;
            } else {
                step.steer = true;
            }
            if !on_ground {
                next = PhysicsObjectState::Flying;
            }
        },
        PhysicsObjectState::Flying => {
            step.fall = true;
            step.steer = true;
            if on_ground {
                if moving {
                    next = PhysicsObjectState::Moving;
                    step.stop_vertical = true;
                } else {
                    next = PhysicsObjectState::Stopped;
                    step.stop_all = true;
                }
            }
        },
    }
    (next, step)
}

/// Off the ground every object flies after a step, whatever its state and controls; on the
/// ground no flying object stays flying.
pub proof fn lemma_off_ground_flies(state: PhysicsObjectState, moving: bool)
    ensures
        spec_next_state(state, false, moving, false).0 == PhysicsObjectState::Flying,
        spec_next_state(PhysicsObjectState::Flying, true, moving, false).0 != PhysicsObjectState::Flying,
{
}

/// Gravity pulls every flying object in a step, whether it is still in the air or lands
/// and whatever its controls; no other object falls in the step.
pub proof fn lemma_flying_falls(state: PhysicsObjectState, on_ground: bool, moving: bool, jumping: bool)
    ensures
        spec_next_state(state, on_ground, moving, jumping).1.fall == (state == PhysicsObjectState::Flying),
{
}

/// What a step does to each part of the velocity: a standing object and a walking one whose
/// controls were released stop sideways; the controls steer a flying object and a walking
/// one that keeps walking; a jump lifts only an object on the ground that jumps, twice as
/// high when walking; a flying object that lands loses its vertical speed when it walks on,
/// and all its speed when it stands.
pub proof fn lemma_step_parts(state: PhysicsObjectState, on_ground: bool, moving: bool, jumping: bool)
    ensures
        ({
            let step = spec_next_state(state, on_ground, moving, jumping).1;
            &&& step.stop_horizontal == (state == PhysicsObjectState::Stopped || (state == PhysicsObjectState::Moving
                && !moving))
            &&& step.steer == (state == PhysicsObjectState::Flying || (state == PhysicsObjectState::Moving && moving
                && !jumping))
            &&& step.jump == if state == PhysicsObjectState::Stopped && on_ground && !moving && jumping {
                1u8
            } else if state == PhysicsObjectState::Moving && moving && jumping {
                2u8
            } else {
                0u8
            }
            &&& step.stop_vertical == (state == PhysicsObjectState::Flying && on_ground && moving)
            &&& step.stop_all == (state == PhysicsObjectState::Flying && on_ground && !moving)
        }),
{
}

/// On the ground, a step moves an object that is moved into walking and one that is not
/// into standing, except that a walking object that jumps, and a standing one that jumps
/// without moving, fly.
pub proof fn lemma_on_ground_states(state: PhysicsObjectState, moving: bool, jumping: bool)
    ensures
        spec_next_state(state, true, moving, jumping).0 == if moving && jumping && state == PhysicsObjectState::Moving {
            PhysicsObjectState::Flying
        } else if moving {
            PhysicsObjectState::Moving
        } else if jumping && state == PhysicsObjectState::Stopped {
            PhysicsObjectState::Flying
        } else {
            PhysicsObjectState::Stopped
        },
{
}

} // verus!
