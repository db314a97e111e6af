use vstd::prelude::*;

verus! {

/// What the button of the pointer is doing.
#[derive(Clone, Copy, Debug, PartialEq, Eq, Structural)]
pub enum PressState {
    Released,
    JustPressed,
    Pressed,
    JustReleased,
}

impl Default for PressState {
    fn default() -> (state: PressState)
        ensures
            state == PressState::Released,
    {
        PressState::Released
    }
}

impl PressState {
    /// The state one frame later, given whether the button went down during the frame and
    /// whether it is down now.
    pub open spec fn after(self, just_pressed: bool, pressed: bool) -> PressState {
        match self {
            PressState::Released => if just_pressed {
                PressState::JustPressed
            } else {
                PressState::Released
            },
            PressState::JustPressed => if pressed {
                PressState::Pressed
            } else {
                PressState::JustReleased
            },
            PressState::Pressed => if pressed {
                PressState::Pressed
            } else {
                PressState::JustReleased
            },
            PressState::JustReleased => PressState::Released,
        }
    }

    /// The state one frame later, given whether the button went down during the frame and
    /// whether it is down now.
    pub fn next(self, just_pressed: bool, pressed: bool) -> (state: PressState)
        ensures
            state == self.after(just_pressed, pressed),
    {
        match self {
            PressState::Released => if just_pressed {
                PressState::JustPressed
            } else {
                PressState::Released
            },
            PressState::JustPressed => if pressed {
                PressState::Pressed
            } else {
                PressState::JustReleased
            },
            PressState::Pressed => if pressed {
                PressState::Pressed
            } else {
                PressState::JustReleased
            },
            PressState::JustReleased => PressState::Released,
        }
    }
}

} // verus!
