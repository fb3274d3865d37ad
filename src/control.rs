use vstd::prelude::*;

verus! {

/// Which impulse a buffered jump turns into this tick.
#[derive(Clone, Copy, Debug, PartialEq, Eq, Structural)]
pub enum JumpKind {
    /// No jump: nothing buffered, or neither ground nor wall in reach.
    NoJump,
    /// A jump off the ground, inside the coyote window.
    Ground,
    /// A jump off a wall, inside the wall-stick window.
    Wall,
}

/// The jump that a buffered press triggers: a ground jump wins over a wall
/// jump, and nothing happens without a buffered press.
pub fn choose_jump(jump_buffered: bool, grounded: bool, walled: bool) -> (r: JumpKind)
    ensures
        !jump_buffered ==> r == JumpKind::NoJump,
        jump_buffered && grounded ==> r == JumpKind::Ground,
        jump_buffered && !grounded && walled ==> r == JumpKind::Wall,
        jump_buffered && !grounded && !walled ==> r == JumpKind::NoJump,
{
    if !jump_buffered {
        JumpKind::NoJump
    } else if grounded {
        JumpKind::Ground
    } else if walled {
        JumpKind::Wall
    } else {
        JumpKind::NoJump
    }
}

/// The modes of a pursuing agent.
#[derive(Clone, Copy, Debug, PartialEq, Eq, Structural)]
pub enum PursueAIState {
    Wander,
    Pursue,
    Search,
    Attack,
}

/// The state of a pursuing agent.
#[derive(Clone, Copy, Debug, PartialEq, Eq, Structural)]
pub struct PursueAI {
    pub state: PursueAIState,
    /// The graph node the agent wanders towards, if it has picked one.
    pub current_wander_goal: Option<usize>,
}

/// A wandering agent starts pursuing once the player is in range, and
/// otherwise takes the change its wandering asked for; a pursuing agent goes
/// back to wandering once the player is out of range. Other states stay.
pub open spec fn next_pursue_state_spec(
    state: PursueAIState,
    player_in_range: bool,
    wander_change: Option<PursueAIState>,
) -> Option<PursueAIState> {
    match state {
        PursueAIState::Wander => if player_in_range {
            Some(PursueAIState::Pursue)
        } else {
            wander_change
        },
        PursueAIState::Pursue => if !player_in_range {
            Some(PursueAIState::Wander)
        } else {
            None
        },
        _ => None,
    }
}

/// The state a pursuing agent moves to, if it changes.
pub fn next_pursue_state(
    state: PursueAIState,
    player_in_range: bool,
    wander_change: Option<PursueAIState>,
) -> (r: Option<PursueAIState>)
    ensures
        r == next_pursue_state_spec(state, player_in_range, wander_change),
{
    match state {
        PursueAIState::Wander => {
            if player_in_range {
                Some(PursueAIState::Pursue)
            } else {
                wander_change
            }
        },
        PursueAIState::Pursue => {
            if !player_in_range {
                Some(PursueAIState::Wander)
            } else {
                None
            }
        },
        _ => None,
    }
}

impl PursueAI {
    /// Applies one update of the state machine.
    pub fn update(&mut self, player_in_range: bool, wander_change: Option<PursueAIState>)
        ensures
            final(self).current_wander_goal == old(self).current_wander_goal,
            match next_pursue_state_spec(old(self).state, player_in_range, wander_change) {
                Some(s) => final(self).state == s,
                None => final(self).state == old(self).state,
            },
    {
        if let Some(s) = next_pursue_state(self.state, player_in_range, wander_change) {
            self.state = s;
        }
    }
}

} // verus!
