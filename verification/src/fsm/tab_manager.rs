use std::time::{Duration, Instant};
use vstd::prelude::*;

verus! {

#[verifier::external_type_specification]
#[verifier::external_body]
pub struct ExInstant(Instant);

/// `Instant::now`: the current instant of the monotonic clock. Nothing is stated of it.
#[verifier::external_body]
fn instant_now() -> Instant {
    Instant::now()
}

/// `Instant::elapsed`: the time since `since`. Nothing is stated of it.
#[verifier::external_body]
fn elapsed_since(since: &Instant) -> Duration {
    since.elapsed()
}

/// `Duration::as_secs`: the whole seconds of `d`. Nothing is stated of them.
#[verifier::external_body]
fn whole_secs(d: &Duration) -> u64 {
    d.as_secs()
}

/// How far a background tab has been put to sleep.
#[derive(Debug, Clone, Copy, PartialEq, Eq, Structural)]
pub enum TabState {
    Level0Focus,
    Level1Emptying,
    Level2Suspended,
    Level3Terminal,
}

/// What the caller has to do after a tick.
#[derive(Debug, Clone, Copy, PartialEq, Eq, Structural)]
pub enum FsmAction {
    NoAction,
    RequestDestruction,
}

/// Sleep state of one tab.
pub struct TabFSM {
    pub state: TabState,
    /// When the tab last went to the background, if it is there.
    pub background_since: Option<Instant>,
}

pub open spec fn rank(s: TabState) -> int {
    match s {
        TabState::Level0Focus => 0,
        TabState::Level1Emptying => 1,
        TabState::Level2Suspended => 2,
        TabState::Level3Terminal => 3,
    }
}

/// Seconds in the background after which a tab is emptied, suspended, and discarded.
pub const EMPTY_AFTER_SECS: u64 = 30;

pub const SUSPEND_AFTER_SECS: u64 = 120;

pub const DISCARD_AFTER_SECS: u64 = 300;

/// The state after one tick, for a tab in the background for `elapsed` seconds
/// (`backgrounded` is whether it is in the background at all): it goes one level
/// deeper when the threshold of the next level has passed.
pub open spec fn next_state(s: TabState, backgrounded: bool, elapsed: u64) -> TabState {
    if !backgrounded {
        s
    } else if elapsed >= EMPTY_AFTER_SECS && s == TabState::Level0Focus {
        TabState::Level1Emptying
    } else if elapsed >= SUSPEND_AFTER_SECS && s == TabState::Level1Emptying {
        TabState::Level2Suspended
    } else if elapsed >= DISCARD_AFTER_SECS && s == TabState::Level2Suspended {
        TabState::Level3Terminal
    } else {
        s
    }
}

/// The deepest level whose threshold `elapsed` seconds have passed.
pub open spec fn level_due(elapsed: u64) -> int {
    if elapsed >= DISCARD_AFTER_SECS {
        3
    } else if elapsed >= SUSPEND_AFTER_SECS {
        2
    } else if elapsed >= EMPTY_AFTER_SECS {
        1
    } else {
        0
    }
}

/// The level a tick entered, if it changed the state.
pub open spec fn entered_level(before: TabState, after: TabState) -> Option<TabState> {
    if before == after {
        None
    } else {
        Some(after)
    }
}

pub open spec fn spec_action(entered: Option<TabState>) -> FsmAction {
    if entered == Some(TabState::Level3Terminal) {
        FsmAction::RequestDestruction
    } else {
        FsmAction::NoAction
    }
}

impl TabFSM {
    pub fn new() -> (r: Self)
        ensures
            r.state == TabState::Level0Focus,
            r.background_since is None,
    {
        TabFSM { state: TabState::Level0Focus, background_since: None }
    }

    /// Marks the tab as sent to the background now, if it is in focus.
    pub fn set_background(&mut self)
        ensures
            final(self).state == old(self).state,
            old(self).state == TabState::Level0Focus ==> final(self).background_since is Some,
            old(self).state != TabState::Level0Focus ==> final(self).background_since == old(self).background_since,
    {
        if self.state == TabState::Level0Focus {
            self.background_since = Some(instant_now());
        }
    }

    /// Brings the tab back to the foreground.
    pub fn set_foreground(&mut self)
        ensures
            final(self).state == TabState::Level0Focus,
            final(self).background_since is None,
    {
        self.state = TabState::Level0Focus;
        self.background_since = None;
    }

    /// One tick for a tab that has been in the background for `elapsed_secs` seconds;
    /// returns the level entered, if any.
    pub fn advance(&mut self, elapsed_secs: u64) -> (entered: Option<TabState>)
        ensures
            final(self).state == next_state(old(self).state, old(self).background_since is Some, elapsed_secs),
            final(self).background_since == old(self).background_since,
            entered == entered_level(old(self).state, final(self).state),
    {
        if self.background_since.is_none() {
            return None;
        }
        if elapsed_secs >= EMPTY_AFTER_SECS && self.state == TabState::Level0Focus {
            self.state = TabState::Level1Emptying;
            Some(TabState::Level1Emptying)
        } else if elapsed_secs >= SUSPEND_AFTER_SECS && self.state == TabState::Level1Emptying {
            self.state = TabState::Level2Suspended;
            Some(TabState::Level2Suspended)
        } else if elapsed_secs >= DISCARD_AFTER_SECS && self.state == TabState::Level2Suspended {
            self.state = TabState::Level3Terminal;
            Some(TabState::Level3Terminal)
        } else {
            None
        }
    }

    /// One tick at the current time; returns the level entered, if any.
    pub fn tick(&mut self) -> (entered: Option<TabState>)
        ensures
            final(self).background_since == old(self).background_since,
            old(self).background_since is None ==> final(self).state == old(self).state,
            exists|e: u64| #[trigger] next_state(old(self).state, old(self).background_since is Some, e) == final(self).state,
            entered == entered_level(old(self).state, final(self).state),
    {
        let elapsed = match &self.background_since {
            Some(since) => whole_secs(&elapsed_since(since)),
            None => 0,
        };
        self.advance(elapsed)
    }
}

/// What the caller has to do after a tick that entered `entered`: a discarded tab's
/// page is to be destroyed.
pub fn action_for(entered: Option<TabState>) -> (a: FsmAction)
    ensures
        a == spec_action(entered),
{
    match entered {
        Some(TabState::Level3Terminal) => FsmAction::RequestDestruction,
        _ => FsmAction::NoAction,
    }
}

/// A tick moves a tab at most one level deeper and never back.
pub proof fn law_tick_one_step(s: TabState, backgrounded: bool, elapsed: u64)
    ensures
        rank(s) <= rank(next_state(s, backgrounded, elapsed)) <= rank(s) + 1,
{
}

/// A tick never takes a tab deeper than the time it has spent in the background calls for.
pub proof fn law_tick_respects_thresholds(s: TabState, backgrounded: bool, elapsed: u64)
    ensures
        rank(next_state(s, backgrounded, elapsed)) <= if rank(s) > level_due(elapsed) {
            rank(s)
        } else {
            level_due(elapsed)
        },
{
}

/// A tab in the foreground never changes level.
pub proof fn law_foreground_stays(s: TabState, elapsed: u64)
    ensures
        next_state(s, false, elapsed) == s,
{
}

/// A discarded tab stays discarded.
pub proof fn law_terminal_is_final(backgrounded: bool, elapsed: u64)
    ensures
        next_state(TabState::Level3Terminal, backgrounded, elapsed) == TabState::Level3Terminal,
{
}

/// Three ticks after five minutes in the background discard a focused tab, and the
/// third of them requests its destruction.
pub proof fn law_three_ticks_discard(elapsed: u64)
    requires
        elapsed >= DISCARD_AFTER_SECS,
    ensures
        next_state(next_state(next_state(TabState::Level0Focus, true, elapsed), true, elapsed), true, elapsed)
            == TabState::Level3Terminal,
        spec_action(entered_level(TabState::Level2Suspended, next_state(TabState::Level2Suspended, true, elapsed)))
            == FsmAction::RequestDestruction,
{
}

} // verus!
