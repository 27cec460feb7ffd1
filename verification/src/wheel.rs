//! Dragging on the colour wheels: which channel is being dragged, and what
//! a pointer event on a wheel means. Where the pointer is, on which ring and
//! at which angle, is for the application to measure.

use vstd::prelude::*;
use crate::picker::{Channel, Msg};
use crate::rgb::{hex_of_rgb, Rgb, rgb_to_hex};

verus! {

/// The drag state of the wheel with three rings and a text in its centre.
pub struct WheelState {
    pub dragging: Option<Channel>,
}

/// The drag state of the combined wheel.
pub struct ComboState {
    pub dragging: Option<Channel>,
}

impl Default for WheelState {
    fn default() -> (r: WheelState)
        ensures
            r.dragging is None,
    {
        WheelState { dragging: None }
    }
}

impl Default for ComboState {
    fn default() -> (r: ComboState)
        ensures
            r.dragging is None,
    {
        ComboState { dragging: None }
    }
}

/// A pointer event on a wheel, with what the application measured: whether
/// the pointer is on the centre disc, on which ring it is, and the value
/// that its angle stands for.
#[derive(Debug, Clone, Copy, PartialEq, Eq, Structural)]
pub enum Pointer {
    /// The left button went down.
    Pressed { in_center: bool, ring: Option<Channel>, value: u8 },
    /// The pointer moved.
    Moved { value: u8 },
    /// The left button went up.
    Released { ring: Option<Channel>, value: u8 },
    /// Any other event.
    Other,
}

/// What a wheel says of an event: whether it took the event, and the
/// message that it sends.
pub struct Outcome {
    pub captured: bool,
    pub message: Option<Msg>,
}

/// The kinds of message that a wheel sends.
pub enum Sent {
    Nothing,
    /// The centre was clicked.
    Center,
    /// A channel was set to a value.
    Channel(Channel, u8),
}

/// Whom a drag goes on for, and what is sent: a press on the centre sends
/// the centre's message; a press on a ring starts a drag on its channel and
/// sets it; a move during a drag sets the dragged channel; a release ends
/// the drag, and sets the channel once more where it happens on a ring.
pub open spec fn dragged(dragging: Option<Channel>, p: Pointer) -> (Option<Channel>, bool, Sent) {
    match p {
        Pointer::Pressed { in_center, ring, value } => {
            if in_center {
                (dragging, true, Sent::Center)
            } else {
                match ring {
                    Some(ch) => (Some(ch), true, Sent::Channel(ch, value)),
                    None => (dragging, false, Sent::Nothing),
                }
            }
        },
        Pointer::Moved { value } => match dragging {
            Some(ch) => (dragging, true, Sent::Channel(ch, value)),
            None => (dragging, false, Sent::Nothing),
        },
        Pointer::Released { ring, value } => match dragging {
            Some(ch) => {
                if ring is Some {
                    (None, true, Sent::Channel(ch, value))
                } else {
                    (None, true, Sent::Nothing)
                }
            },
            None => (None, false, Sent::Nothing),
        },
        Pointer::Other => (dragging, false, Sent::Nothing),
    }
}

fn drag(dragging: Option<Channel>, p: Pointer) -> (r: (Option<Channel>, bool, Sent))
    ensures
        r == dragged(dragging, p),
{
    match p {
        Pointer::Pressed { in_center, ring, value } => {
            if in_center {
                (dragging, true, Sent::Center)
            } else {
                match ring {
                    Some(ch) => (Some(ch), true, Sent::Channel(ch, value)),
                    None => (dragging, false, Sent::Nothing),
                }
            }
        },
        Pointer::Moved { value } => match dragging {
            Some(ch) => (dragging, true, Sent::Channel(ch, value)),
            None => (dragging, false, Sent::Nothing),
        },
        Pointer::Released { ring, value } => match dragging {
            Some(ch) => {
                if ring.is_some() {
                    (None, true, Sent::Channel(ch, value))
                } else {
                    (None, true, Sent::Nothing)
                }
            },
            None => (None, false, Sent::Nothing),
        },
        Pointer::Other => (dragging, false, Sent::Nothing),
    }
}

/// The message of the three-ring wheel: its centre copies the colour.
pub open spec fn wheel_message(sent: Sent, color: Rgb, m: Option<Msg>) -> bool {
    match sent {
        Sent::Nothing => m is None,
        Sent::Center => m matches Some(Msg::CopyHex(t)) && t@ == hex_of_rgb(color),
        Sent::Channel(ch, v) => m == Some(Msg::WheelChanged(ch, v)),
    }
}

/// The message of the combined wheel: its centre reports the click.
pub open spec fn combo_message(sent: Sent, m: Option<Msg>) -> bool {
    match sent {
        Sent::Nothing => m is None,
        Sent::Center => m == Some(Msg::CenterClicked),
        Sent::Channel(ch, v) => m == Some(Msg::WheelChanged(ch, v)),
    }
}

/// Takes a pointer event on the three-ring wheel that shows `color`.
pub fn wheel_event(state: &mut WheelState, color: Rgb, p: Pointer) -> (r: Outcome)
    ensures
        final(state).dragging == dragged(old(state).dragging, p).0,
        r.captured == dragged(old(state).dragging, p).1,
        wheel_message(dragged(old(state).dragging, p).2, color, r.message),
{
    let (next, captured, sent) = drag(state.dragging, p);
    state.dragging = next;
    let message = match sent {
        Sent::Nothing => None,
        Sent::Center => Some(Msg::CopyHex(rgb_to_hex(color))),
        Sent::Channel(ch, v) => Some(Msg::WheelChanged(ch, v)),
    };
    Outcome { captured, message }
}

/// Takes a pointer event on the combined wheel.
pub fn combo_event(state: &mut ComboState, p: Pointer) -> (r: Outcome)
    ensures
        final(state).dragging == dragged(old(state).dragging, p).0,
        r.captured == dragged(old(state).dragging, p).1,
        combo_message(dragged(old(state).dragging, p).2, r.message),
{
    let (next, captured, sent) = drag(state.dragging, p);
    state.dragging = next;
    let message = match sent {
        Sent::Nothing => None,
        Sent::Center => Some(Msg::CenterClicked),
        Sent::Channel(ch, v) => Some(Msg::WheelChanged(ch, v)),
    };
    Outcome { captured, message }
}

} // verus!
