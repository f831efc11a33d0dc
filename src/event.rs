//! What event dispatch hands back, and the handlers that views carry.
use vstd::prelude::*;
use crate::id::Id;

verus! {

/// The outcome of delivering an event along a path of identities.
#[derive(Clone, Debug, PartialEq, Eq)]
pub enum EventResult<A> {
    /// The target's handler ran and produced this action.
    Action(A),
    /// The target exists but has nothing to do with the event.
    Nop,
    /// The path leads to no node that exists now.
    Stale,
}

/// The code a button runs when it is clicked: it may change the application
/// state and produces an action.
pub trait Handler<T, A> {
    fn call(&self, app_state: &mut T) -> A;
}

/// A point of an input event, relative to the widget that receives it.
#[derive(Clone, Copy, Debug, PartialEq, Eq, Structural)]
pub struct Position {
    pub x: i64,
    pub y: i64,
}

#[derive(Clone, Copy, Debug, PartialEq, Eq, Structural)]
pub enum MouseButton {
    NoButton,
    Left,
    Right,
    Middle,
    X1,
    X2,
}

#[derive(Clone, Copy, Debug, PartialEq, Eq, Structural)]
pub struct MouseEvent {
    /// The position of the pointer in the coordinate space of the receiver.
    pub pos: Position,
    /// The position of the pointer in the window.
    pub window_pos: Position,
    /// The buttons held down, one bit per button in the order of `MouseButton`.
    pub buttons: u8,
    /// The modifier keys held down, one bit per key.
    pub mods: u32,
    pub count: u8,
    pub focus: bool,
    pub button: MouseButton,
    pub wheel_delta: Position,
}

#[derive(Clone, Copy, Debug, PartialEq, Eq, Structural)]
pub enum KeyLocation {
    Standard,
    Left,
    Right,
    Numpad,
}

#[derive(Clone, Debug, PartialEq, Eq)]
pub struct KeyEvent {
    /// The logical key, by its name or the text it produces.
    pub key: String,
    /// The physical key, by its name.
    pub code: String,
    pub location: KeyLocation,
    pub mods: u32,
    pub repeat: bool,
    pub is_composing: bool,
}

/// Input from the windowing shell.
#[derive(Clone, Debug, PartialEq, Eq)]
pub enum RawEvent {
    KeyDown(KeyEvent),
    KeyUp(KeyEvent),
    MouseDown(MouseEvent),
    MouseUp(MouseEvent),
    MouseMove(MouseEvent),
    MouseWheel(MouseEvent),
}

/// A click that a widget reports to the view at the end of `id_path`.
pub struct Message {
    pub id_path: Vec<Id>,
}

/// The identity paths that `msgs` carry.
pub open spec fn message_paths(msgs: Seq<Message>) -> Seq<Seq<Id>> {
    msgs.map_values(|m: Message| m.id_path@)
}

} // verus!
