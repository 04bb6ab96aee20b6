//! Pointer input, as the viewer sees it.

use vstd::prelude::*;

verus! {

/// A mouse button.
#[derive(Clone, Copy, Debug, PartialEq, Eq, Structural)]
pub enum MouseButton {
    Left,
    Right,
    Middle,
    Other(u16),
}

/// Which way a button went.
#[derive(Clone, Copy, Debug, PartialEq, Eq, Structural)]
pub enum ElementState {
    Pressed,
    Released,
}

/// What the window reports.
///
/// A pointer position is in device pixels, counted from the canvas's lower
/// left corner: the window layer has scaled it and turned its rows over
/// before it gets here.
#[derive(Clone, Copy, Debug, PartialEq, Eq, Structural)]
pub enum InputEvent {
    /// A button went down or came up.
    MouseInput { state: ElementState, button: MouseButton },
    /// The pointer is now at (`x`, `y`).
    CursorMoved { x: i32, y: i32 },
    /// Anything else.
    Other,
}

/// Where the pointer was last seen.
#[derive(Clone, Copy, Debug, PartialEq, Eq, Structural)]
pub struct Cursor {
    pub x: i32,
    pub y: i32,
}

impl InputEvent {
    /// The one event that zooms: the left button going down. The event is
    /// the press itself, so a button that is held down zooms once. Its coming
    /// up again does nothing, and neither does any other button.
    pub open spec fn is_zoom_trigger(self) -> bool {
        self == (InputEvent::MouseInput {
            state: ElementState::Pressed,
            button: MouseButton::Left,
        })
    }
}

} // verus!
