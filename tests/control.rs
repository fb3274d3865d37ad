use platformer_core::control::{
    choose_jump, next_pursue_state, JumpKind, PursueAI, PursueAIState,
};

#[test]
fn jump_needs_a_buffered_press() {
    assert_eq!(choose_jump(false, true, true), JumpKind::NoJump);
}

#[test]
fn ground_jump_wins_over_wall_jump() {
    assert_eq!(choose_jump(true, true, true), JumpKind::Ground);
    assert_eq!(choose_jump(true, true, false), JumpKind::Ground);
}

#[test]
fn wall_jump_inside_wall_window() {
    assert_eq!(choose_jump(true, false, true), JumpKind::Wall);
    assert_eq!(choose_jump(true, false, false), JumpKind::NoJump);
}

#[test]
fn pursue_transitions() {
    assert_eq!(next_pursue_state(PursueAIState::Wander, true, None), Some(PursueAIState::Pursue));
    assert_eq!(next_pursue_state(PursueAIState::Wander, false, None), None);
    assert_eq!(next_pursue_state(PursueAIState::Wander, false, Some(PursueAIState::Search)), Some(PursueAIState::Search));
    assert_eq!(next_pursue_state(PursueAIState::Pursue, false, None), Some(PursueAIState::Wander));
    assert_eq!(next_pursue_state(PursueAIState::Pursue, true, Some(PursueAIState::Attack)), None);
    assert_eq!(next_pursue_state(PursueAIState::Search, true, Some(PursueAIState::Wander)), None);
    assert_eq!(next_pursue_state(PursueAIState::Attack, false, None), None);
}

#[test]
fn pursue_ai_update_keeps_goal() {
    let mut ai = PursueAI { state: PursueAIState::Pursue, current_wander_goal: Some(4) };
    ai.update(false, None);
    assert_eq!(ai.state, PursueAIState::Wander);
    assert_eq!(ai.current_wander_goal, Some(4));
    ai.update(false, None);
    assert_eq!(ai.state, PursueAIState::Wander);
    ai.update(true, None);
    assert_eq!(ai.state, PursueAIState::Pursue);
}
