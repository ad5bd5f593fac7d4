use vex::anim::{Channel, Easing, LoopMode};

#[test]
fn defaults_are_linear_and_looping() {
    assert_eq!(Easing::default(), Easing::Linear);
    assert_eq!(LoopMode::default(), LoopMode::Loop);
    assert_ne!(Channel::RotY, Channel::PosY);
}
