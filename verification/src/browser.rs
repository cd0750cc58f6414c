use vstd::prelude::*;

verus! {

/// The window events the browser reacts to.
#[derive(Debug, Clone, Copy, PartialEq, Eq, Structural)]
pub enum WindowInput {
    CloseRequested,
    MouseInput,
    /// The event queue has been drained.
    AboutToWait,
    Other,
}

/// What the event loop does next.
#[derive(Debug, Clone, Copy, PartialEq, Eq, Structural)]
pub enum LoopStep {
    /// Leave the event loop.
    Exit,
    /// Build a new page view in a fresh profile, scroll it to the top and bring the tab to the foreground.
    Rehydrate,
    /// Tick the tab's sleep state machine.
    Tick,
    /// Nothing to do.
    Idle,
}

pub open spec fn spec_next_step(input: WindowInput, webview_alive: bool) -> LoopStep {
    match input {
        WindowInput::CloseRequested => LoopStep::Exit,
        WindowInput::MouseInput => if webview_alive {
            LoopStep::Idle
        } else {
            LoopStep::Rehydrate
        },
        WindowInput::AboutToWait => if webview_alive {
            LoopStep::Tick
        } else {
            LoopStep::Idle
        },
        WindowInput::Other => LoopStep::Idle,
    }
}

/// The event loop's decision for `input`, given whether a page view exists: a click
/// brings back a discarded page, and idle time ticks the live one.
pub fn next_step(input: WindowInput, webview_alive: bool) -> (s: LoopStep)
    ensures
        s == spec_next_step(input, webview_alive),
{
    match input {
        WindowInput::CloseRequested => LoopStep::Exit,
        WindowInput::MouseInput => if webview_alive {
            LoopStep::Idle
        } else {
            LoopStep::Rehydrate
        },
        WindowInput::AboutToWait => if webview_alive {
            LoopStep::Tick
        } else {
            LoopStep::Idle
        },
        WindowInput::Other => LoopStep::Idle,
    }
}

} // verus!
