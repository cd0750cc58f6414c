use petal::fsm::tab_manager::{action_for, FsmAction, TabFSM, TabState};
use std::time::Instant;

#[test]
fn new_tab_is_focused() {
    let f = TabFSM::new();
    assert_eq!(f.state, TabState::Level0Focus);
    assert!(f.background_since.is_none());
}

#[test]
fn background_starts_the_clock_only_when_focused() {
    let mut f = TabFSM::new();
    f.set_background();
    assert!(f.background_since.is_some());
    let mut g = TabFSM { state: TabState::Level2Suspended, background_since: None };
    g.set_background();
    assert!(g.background_since.is_none());
}

#[test]
fn levels_follow_thresholds() {
    let mut f = TabFSM { state: TabState::Level0Focus, background_since: Some(Instant::now()) };
    assert_eq!(f.advance(29), None);
    assert_eq!(f.state, TabState::Level0Focus);
    assert_eq!(f.advance(30), Some(TabState::Level1Emptying));
    assert_eq!(f.advance(119), None);
    assert_eq!(f.state, TabState::Level1Emptying);
    assert_eq!(f.advance(120), Some(TabState::Level2Suspended));
    assert_eq!(f.advance(299), None);
    assert_eq!(f.advance(300), Some(TabState::Level3Terminal));
    assert_eq!(f.advance(100000), None);
    assert_eq!(f.state, TabState::Level3Terminal);
}

#[test]
fn three_ticks_after_five_minutes_discard() {
    let mut f = TabFSM { state: TabState::Level0Focus, background_since: Some(Instant::now()) };
    let a = f.advance(301);
    assert_eq!(action_for(a), FsmAction::NoAction);
    let b = f.advance(301);
    assert_eq!(action_for(b), FsmAction::NoAction);
    let c = f.advance(301);
    assert_eq!(c, Some(TabState::Level3Terminal));
    assert_eq!(action_for(c), FsmAction::RequestDestruction);
}

#[test]
fn foreground_tab_never_changes() {
    let mut f = TabFSM::new();
    assert_eq!(f.advance(1000), None);
    assert_eq!(f.state, TabState::Level0Focus);
    assert_eq!(f.tick(), None);
}

#[test]
fn foreground_resets() {
    let mut f = TabFSM { state: TabState::Level3Terminal, background_since: Some(Instant::now()) };
    f.set_foreground();
    assert_eq!(f.state, TabState::Level0Focus);
    assert!(f.background_since.is_none());
}

#[test]
fn tick_right_after_background_keeps_focus() {
    let mut f = TabFSM::new();
    f.set_background();
    assert_eq!(f.tick(), None);
    assert_eq!(f.state, TabState::Level0Focus);
}
