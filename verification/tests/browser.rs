use petal::browser::{next_step, LoopStep, WindowInput};

#[test]
fn loop_decisions() {
    assert_eq!(next_step(WindowInput::CloseRequested, true), LoopStep::Exit);
    assert_eq!(next_step(WindowInput::CloseRequested, false), LoopStep::Exit);
    assert_eq!(next_step(WindowInput::MouseInput, false), LoopStep::Rehydrate);
    assert_eq!(next_step(WindowInput::MouseInput, true), LoopStep::Idle);
    assert_eq!(next_step(WindowInput::AboutToWait, true), LoopStep::Tick);
    assert_eq!(next_step(WindowInput::AboutToWait, false), LoopStep::Idle);
    assert_eq!(next_step(WindowInput::Other, true), LoopStep::Idle);
}
