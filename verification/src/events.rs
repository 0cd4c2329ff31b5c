//! Events as a closed union: payloads, dispatch strategies, the queue entry,
//! keyboard state, and the handler registrations the dispatch system matches
//! against.

use vstd::prelude::*;

use crate::geometry::Point;
use crate::text::Text16;

verus! {

/// A key on the keyboard, as far as this core tells them apart.
#[derive(Clone, Copy, Debug, PartialEq, Eq, Structural)]
pub enum Key {
    Left,
    Right,
    Up,
    Down,
    Backspace,
    Delete,
    Enter,
    A,
    Control,
    Shift,
    Alt,
    NumpadAdd,
    NumpadSubtract,
    Unknown,
}

/// A key event: the key and the text it produces, in UTF-16 units.
#[derive(Debug)]
pub struct KeyEvent {
    pub key: Key,
    pub text: Text16,
}

impl KeyEvent {
    pub fn new(key: Key, text: Text16) -> (r: KeyEvent)
        ensures
            r.key == key,
            r.text@ == text@,
    {
        KeyEvent { key, text }
    }
}

impl Clone for KeyEvent {
    fn clone(&self) -> (r: KeyEvent)
        ensures
            r.key == self.key,
            r.text@ == self.text@,
    {
        KeyEvent { key: self.key, text: self.text.clone() }
    }
}

/// A mouse report: the pointer position.
#[derive(Clone, Copy, Debug, PartialEq, Eq, Structural)]
pub struct Mouse {
    pub x: i64,
    pub y: i64,
}

/// Global keyboard modifier state, held on the root entity and updated as a
/// side effect of key events before they are routed.
#[derive(Clone, Copy, Debug, PartialEq, Eq, Structural)]
pub struct KeyboardState {
    pub ctrl_down: bool,
    pub shift_down: bool,
    pub alt_down: bool,
}

impl KeyboardState {
    pub fn new() -> (r: KeyboardState)
        ensures
            r == (KeyboardState { ctrl_down: false, shift_down: false, alt_down: false }),
    {
        KeyboardState { ctrl_down: false, shift_down: false, alt_down: false }
    }

    /// What `set_key_state` leaves behind: the modifier the key stands for
    /// follows the flag; other keys change nothing.
    pub open spec fn spec_set_key_state(self, key: Key, down: bool) -> KeyboardState {
        match key {
            Key::Control => KeyboardState { ctrl_down: down, ..self },
            Key::Shift => KeyboardState { shift_down: down, ..self },
            Key::Alt => KeyboardState { alt_down: down, ..self },
            _ => self,
        }
    }

    /// Records that a key went down or up.
    pub fn set_key_state(&mut self, key: Key, down: bool)
        ensures
            *final(self) == old(self).spec_set_key_state(key, down),
    {
        match key {
            Key::Control => self.ctrl_down = down,
            Key::Shift => self.shift_down = down,
            Key::Alt => self.alt_down = down,
            _ => (),
        }
    }

    pub fn is_ctrl_down(&self) -> (r: bool)
        ensures
            r == self.ctrl_down,
    {
        self.ctrl_down
    }
}

/// How an event finds its targets.
#[derive(Clone, Copy, Debug, PartialEq, Eq, Structural)]
pub enum EventStrategy {
    /// Delivered only to the source entity's handlers.
    Direct,
    /// Routed by hit-testing, innermost match first.
    BottomUp,
}

/// An event payload.
#[derive(Debug)]
pub enum Event {
    /// Ends the dispatch loop at once, ahead of queued events.
    Quit,
    KeyDown(KeyEvent),
    KeyUp(KeyEvent),
    Click { position: Point },
    MouseDown(Mouse),
    MouseUp(Mouse),
    MouseMove { position: Point },
    Scroll { delta: Point },
    FocusRequest { entity: usize },
    FocusRemove { entity: usize },
    Activate { entity: usize },
}

/// The kind of an event, for handler registrations.
#[derive(Clone, Copy, Debug, PartialEq, Eq, Structural)]
pub enum EventKind {
    Quit,
    KeyDown,
    KeyUp,
    Click,
    MouseDown,
    MouseUp,
    MouseMove,
    Scroll,
    FocusRequest,
    FocusRemove,
    Activate,
}

impl Event {
    /// The kind of this payload.
    pub open spec fn spec_kind(&self) -> EventKind {
        match self {
            Event::Quit => EventKind::Quit,
            Event::KeyDown(..) => EventKind::KeyDown,
            Event::KeyUp(..) => EventKind::KeyUp,
            Event::Click { .. } => EventKind::Click,
            Event::MouseDown(..) => EventKind::MouseDown,
            Event::MouseUp(..) => EventKind::MouseUp,
            Event::MouseMove { .. } => EventKind::MouseMove,
            Event::Scroll { .. } => EventKind::Scroll,
            Event::FocusRequest { .. } => EventKind::FocusRequest,
            Event::FocusRemove { .. } => EventKind::FocusRemove,
            Event::Activate { .. } => EventKind::Activate,
        }
    }

    pub fn kind(&self) -> (r: EventKind)
        ensures
            r == self.spec_kind(),
    {
        match self {
            Event::Quit => EventKind::Quit,
            Event::KeyDown(..) => EventKind::KeyDown,
            Event::KeyUp(..) => EventKind::KeyUp,
            Event::Click { .. } => EventKind::Click,
            Event::MouseDown(..) => EventKind::MouseDown,
            Event::MouseUp(..) => EventKind::MouseUp,
            Event::MouseMove { .. } => EventKind::MouseMove,
            Event::Scroll { .. } => EventKind::Scroll,
            Event::FocusRequest { .. } => EventKind::FocusRequest,
            Event::FocusRemove { .. } => EventKind::FocusRemove,
            Event::Activate { .. } => EventKind::Activate,
        }
    }
}

impl Clone for Event {
    fn clone(&self) -> (r: Event)
        ensures
            r.spec_kind() == self.spec_kind(),
            r matches Event::Click { position } ==> self matches Event::Click {
                position: p2,
            } && position == p2,
            r matches Event::MouseDown(m) ==> self matches Event::MouseDown(m2) && m == m2,
            r matches Event::MouseUp(m) ==> self matches Event::MouseUp(m2) && m == m2,
            r matches Event::MouseMove { position } ==> self matches Event::MouseMove {
                position: p2,
            } && position == p2,
            r matches Event::Scroll { delta } ==> self matches Event::Scroll {
                delta: d2,
            } && delta == d2,
            r matches Event::KeyDown(k) ==> self matches Event::KeyDown(k2) && k.key == k2.key
                && k.text@ == k2.text@,
            r matches Event::KeyUp(k) ==> self matches Event::KeyUp(k2) && k.key == k2.key
                && k.text@ == k2.text@,
            r matches Event::FocusRequest { entity } ==> self matches Event::FocusRequest {
                entity: e2,
            } && entity == e2,
            r matches Event::FocusRemove { entity } ==> self matches Event::FocusRemove {
                entity: e2,
            } && entity == e2,
            r matches Event::Activate { entity } ==> self matches Event::Activate {
                entity: e2,
            } && entity == e2,
    {
        match self {
            Event::Quit => Event::Quit,
            Event::KeyDown(k) => Event::KeyDown(k.clone()),
            Event::KeyUp(k) => Event::KeyUp(k.clone()),
            Event::Click { position } => Event::Click { position: *position },
            Event::MouseDown(m) => Event::MouseDown(*m),
            Event::MouseUp(m) => Event::MouseUp(*m),
            Event::MouseMove { position } => Event::MouseMove { position: *position },
            Event::Scroll { delta } => Event::Scroll { delta: *delta },
            Event::FocusRequest { entity } => Event::FocusRequest { entity: *entity },
            Event::FocusRemove { entity } => Event::FocusRemove { entity: *entity },
            Event::Activate { entity } => Event::Activate { entity: *entity },
        }
    }
}

/// One queued event: a payload, its source entity and its strategy.
/// Immutable once queued.
#[derive(Debug)]
pub struct EventBox {
    pub source: usize,
    pub strategy: EventStrategy,
    pub event: Event,
}

/// What a registered handler does when it fires: it records an action on a
/// widget state (the closed set of behaviors this core ships) and reports
/// whether the event is handled.
#[derive(Clone, Copy, Debug, PartialEq, Eq, Structural)]
pub enum HandlerAction {
    /// Forwards the mouse report to a `MouseBehaviorState`.
    MouseBehavior { target: usize },
    /// Forwards key or mouse input to a `TextBehaviorState`.
    TextBehavior { target: usize },
    /// Asks a `NumericBoxState` to increase its value by one step.
    NumericInc { target: usize },
    /// Asks a `NumericBoxState` to decrease its value by one step.
    NumericDec { target: usize },
    /// Forwards key or scroll or focus input to a `NumericBoxState`.
    NumericBox { target: usize },
    /// Forwards the pointer position to a `SliderState`.
    SliderMove { target: usize },
    /// Does nothing to any state.
    Inert,
}

/// A handler registration: the event kind it declares to handle, what firing
/// it does, and the handled flag it reports.
#[derive(Clone, Copy, Debug, PartialEq, Eq, Structural)]
pub struct HandlerDecl {
    pub kind: EventKind,
    pub action: HandlerAction,
    pub handled: bool,
}

impl HandlerDecl {
    /// Whether this handler declares that it handles the given event.
    pub open spec fn spec_handles_event(self, event: &Event) -> bool {
        self.kind == event.spec_kind()
    }

    pub fn handles_event(&self, event: &Event) -> (r: bool)
        ensures
            r == self.spec_handles_event(event),
    {
        self.kind == event.kind()
    }
}

} // verus!
