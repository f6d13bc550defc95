//! What the user interface is told of the input.
//!
//! Coordinates in floating point are carried by their bits.
use vstd::prelude::*;

verus! {

/// The keys that modify others, as they are held.
#[derive(Clone, Copy, Debug, PartialEq, Eq, Structural)]
pub struct HeldKeys {
    pub control_left: bool,
    pub control_right: bool,
    pub shift_left: bool,
    pub shift_right: bool,
    pub alt_left: bool,
    pub alt_right: bool,
    pub super_left: bool,
    pub super_right: bool,
}

/// The modifiers of an event. `command` is what shortcuts go by.
#[derive(Clone, Copy, Debug, PartialEq, Eq, Structural)]
pub struct Modifiers {
    pub alt: bool,
    pub ctrl: bool,
    pub shift: bool,
    pub mac_cmd: bool,
    pub command: bool,
}

/// The modifiers that held keys come to: the command key is the one next to the space bar
/// on a Mac, and control elsewhere.
pub open spec fn modifiers_of(keys: HeldKeys, mac: bool) -> Modifiers {
    let ctrl = keys.control_left || keys.control_right;
    let mac_cmd = mac && (keys.super_left || keys.super_right);
    Modifiers {
        alt: keys.alt_left || keys.alt_right,
        ctrl,
        shift: keys.shift_left || keys.shift_right,
        mac_cmd,
        command: if mac {
            mac_cmd
        } else {
            ctrl
        },
    }
}

/// The modifiers that held keys come to.
pub fn build_modifiers(keys: HeldKeys, mac: bool) -> (modifiers: Modifiers)
    ensures
        modifiers == modifiers_of(keys, mac),
{
    let ctrl = keys.control_left || keys.control_right;
    let mac_cmd = mac && (keys.super_left || keys.super_right);
    Modifiers {
        alt: keys.alt_left || keys.alt_right,
        ctrl,
        shift: keys.shift_left || keys.shift_right,
        mac_cmd,
        command: if mac {
            mac_cmd
        } else {
            ctrl
        },
    }
}

/// The keys that the user interface knows by name.
#[derive(Clone, Copy, Debug, PartialEq, Eq, Structural)]
pub enum NamedKey {
    Enter,
    Tab,
    Space,
    ArrowDown,
    ArrowLeft,
    ArrowRight,
    ArrowUp,
    End,
    Home,
    Backspace,
    Delete,
    Escape,
}

/// The buttons of a pointer.
#[derive(Clone, Copy, Debug, PartialEq, Eq, Structural)]
pub enum PointerButton {
    Primary,
    Secondary,
    Middle,
}

/// What happened to a button since the last frame.
#[derive(Clone, Copy, Debug, PartialEq, Eq, Structural)]
pub struct ButtonChange {
    pub just_pressed: bool,
    pub just_released: bool,
}

/// A key that went down or up, the name it has if it is one of those, and the text that
/// it makes.
#[derive(Debug)]
pub struct KeyPress {
    pub key: Option<NamedKey>,
    pub pressed: bool,
    pub repeat: bool,
    pub text: Option<String>,
}

/// The input of a frame. Positions and scrolling are in points.
#[derive(Debug)]
pub struct FrameInput {
    pub cursor_moved: Vec<[u32; 2]>,
    pub left: ButtonChange,
    pub right: ButtonChange,
    pub middle: ButtonChange,
    pub wheel: Vec<[u32; 2]>,
    pub keyboard: Vec<KeyPress>,
}

/// What the user interface is told.
#[derive(Debug)]
pub enum UiEvent {
    PointerMoved([u32; 2]),
    PointerButton { pos: [u32; 2], button: PointerButton, pressed: bool, modifiers: Modifiers },
    MouseWheel { delta: [u32; 2], modifiers: Modifiers },
    Key { key: NamedKey, pressed: bool, repeat: bool, modifiers: Modifiers },
    Text(String),
}

/// What the user interface is told, as a value.
pub ghost enum EventState {
    PointerMoved([u32; 2]),
    PointerButton { pos: [u32; 2], button: PointerButton, pressed: bool, modifiers: Modifiers },
    MouseWheel { delta: [u32; 2], modifiers: Modifiers },
    Key { key: NamedKey, pressed: bool, repeat: bool, modifiers: Modifiers },
    Text(Seq<char>),
}

impl UiEvent {
    pub open spec fn view(&self) -> EventState {
        match *self {
            UiEvent::PointerMoved(pos) => EventState::PointerMoved(pos),
            UiEvent::PointerButton { pos, button, pressed, modifiers } =>
                EventState::PointerButton { pos, button, pressed, modifiers },
            UiEvent::MouseWheel { delta, modifiers } => EventState::MouseWheel { delta, modifiers },
            UiEvent::Key { key, pressed, repeat, modifiers } => EventState::Key {
                key,
                pressed,
                repeat,
                modifiers,
            },
            UiEvent::Text(text) => EventState::Text(text@),
        }
    }
}

/// Events as values.
pub open spec fn event_states(events: Seq<UiEvent>) -> Seq<EventState> {
    Seq::new(events.len(), |i: int| events[i]@)
}

/// Unicode's control characters.
pub open spec fn is_control(c: char) -> bool {
    c <= '\u{1f}' || '\u{7f}' <= c <= '\u{9f}'
}

/// Whether a key makes text for the user interface: some, and no control characters.
pub open spec fn makes_text(text: Option<String>) -> bool {
    text matches Some(chars) && chars@.len() > 0 && forall|i: int|
        0 <= i < chars@.len() ==> !is_control(#[trigger] chars@[i])
}

/// Where the pointer is after some moves.
pub open spec fn pointer_after(start: [u32; 2], moves: Seq<[u32; 2]>) -> [u32; 2] {
    if moves.len() > 0 {
        moves.last()
    } else {
        start
    }
}

/// What is told of a button: it went down or up at the pointer, if it did.
pub open spec fn button_events(
    change: ButtonChange,
    button: PointerButton,
    pos: [u32; 2],
    modifiers: Modifiers,
) -> Seq<EventState> {
    if change.just_pressed || change.just_released {
        seq![
            EventState::PointerButton { pos, button, pressed: change.just_pressed, modifiers },
        ]
    } else {
        Seq::empty()
    }
}

/// What is told of a key: the key itself where it has a name, and the text that it makes
/// where it goes down.
pub open spec fn key_events(press: KeyPress, modifiers: Modifiers) -> Seq<EventState> {
    let named = match press.key {
        Some(key) => seq![
            EventState::Key { key, pressed: press.pressed, repeat: press.repeat, modifiers },
        ],
        None => Seq::empty(),
    };
    if press.pressed && makes_text(press.text) {
        named.push(EventState::Text(press.text->0@))
    } else {
        named
    }
}

/// What is told of the first `n` keys.
pub open spec fn keyboard_events(
    keyboard: Seq<KeyPress>,
    modifiers: Modifiers,
    n: nat,
) -> Seq<EventState>
    decreases n,
{
    if 0 < n <= keyboard.len() {
        keyboard_events(keyboard, modifiers, (n - 1) as nat) + key_events(
            keyboard[n - 1],
            modifiers,
        )
    } else {
        Seq::empty()
    }
}

/// What is told of a frame's input: moves, buttons, scrolling and keys, in this order.
pub open spec fn frame_events(
    start: [u32; 2],
    input: FrameInput,
    modifiers: Modifiers,
) -> Seq<EventState> {
    let pos = pointer_after(start, input.cursor_moved@);
    input.cursor_moved@.map_values(|p: [u32; 2]| EventState::PointerMoved(p)) + button_events(
        input.left,
        PointerButton::Primary,
        pos,
        modifiers,
    ) + button_events(input.right, PointerButton::Secondary, pos, modifiers) + button_events(
        input.middle,
        PointerButton::Middle,
        pos,
        modifiers,
    ) + input.wheel@.map_values(
        |delta: [u32; 2]| EventState::MouseWheel { delta, modifiers },
    ) + keyboard_events(input.keyboard@, modifiers, input.keyboard@.len())
}

/// The input that lives across frames: where the pointer is.
#[derive(Clone, Copy, Debug)]
pub struct EguiInputState {
    pub pointer_pos: [u32; 2],
}

/// Does a key make text for the user interface?
fn is_text(text: &String) -> (r: bool)
    ensures
        r == makes_text(Some(*text)),
{
    let chars = text.as_str();
    let length: usize = chars.unicode_len();
    for i in 0..length
        invariant
            chars@ == text@,
            length == text@.len(),
            forall|j: int| 0 <= j < i ==> !is_control(#[trigger] text@[j]),
    {
        let c: char = chars.get_char(i);
        if c <= '\u{1f}' || ('\u{7f}' <= c && c <= '\u{9f}') {
            assert(is_control(text@[i as int]));
            return false;
        }
    }
    length > 0
}

fn push_button(
    events: &mut Vec<UiEvent>,
    change: ButtonChange,
    button: PointerButton,
    pos: [u32; 2],
    modifiers: Modifiers,
)
    ensures
        event_states(final(events)@) == event_states(old(events)@) + button_events(
            change,
            button,
            pos,
            modifiers,
        ),
{
    if change.just_pressed || change.just_released {
        events.push(
            UiEvent::PointerButton { pos, button, pressed: change.just_pressed, modifiers },
        );
    }
    proof {
        assert(event_states(events@) =~= event_states(old(events)@) + button_events(
            change,
            button,
            pos,
            modifiers,
        ));
    }
}

fn push_key(events: &mut Vec<UiEvent>, press: &KeyPress, modifiers: Modifiers)
    ensures
        event_states(final(events)@) == event_states(old(events)@) + key_events(
            *press,
            modifiers,
        ),
{
    if let Some(key) = press.key {
        events.push(
            UiEvent::Key { key, pressed: press.pressed, repeat: press.repeat, modifiers },
        );
    }
    if press.pressed {
        if let Some(text) = &press.text {
            if is_text(text) {
                events.push(UiEvent::Text(text.as_str().to_owned()));
            }
        }
    }
    proof {
        assert(event_states(events@) =~= event_states(old(events)@) + key_events(
            *press,
            modifiers,
        ));
    }
}

impl EguiInputState {
    /// What the user interface is told of a frame's input. Buttons go down and up where
    /// the pointer is after its moves.
    pub fn frame_events(&mut self, input: &FrameInput, modifiers: Modifiers) -> (events: Vec<
        UiEvent,
    >)
        ensures
            event_states(events@) == frame_events(old(self).pointer_pos, *input, modifiers),
            final(self).pointer_pos == pointer_after(
                old(self).pointer_pos,
                input.cursor_moved@,
            ),
    {
        let mut events: Vec<UiEvent> = Vec::new();
        let ghost moves = input.cursor_moved@.map_values(
            |p: [u32; 2]| EventState::PointerMoved(p),
        );
        proof {
            assert(event_states(events@) =~= moves.take(0));
        }
        for i in 0..input.cursor_moved.len()
            invariant
                moves == input.cursor_moved@.map_values(
                    |p: [u32; 2]| EventState::PointerMoved(p),
                ),
                event_states(events@) == moves.take(i as int),
                self.pointer_pos == pointer_after(
                    old(self).pointer_pos,
                    input.cursor_moved@.take(i as int),
                ),
        {
            let ghost before = events@;
            self.pointer_pos = input.cursor_moved[i];
            events.push(UiEvent::PointerMoved(self.pointer_pos));
            proof {
                assert(event_states(events@) =~= event_states(before).push(moves[i as int]));
                assert(moves.take(i + 1) =~= moves.take(i as int).push(moves[i as int]));
                assert(event_states(events@) =~= moves.take(i + 1));
                assert(input.cursor_moved@.take(i + 1).last() == input.cursor_moved@[i as int]);
            }
        }
        proof {
            assert(moves.take(moves.len() as int) =~= moves);
            assert(input.cursor_moved@.take(input.cursor_moved@.len() as int)
                =~= input.cursor_moved@);
        }
        let pos = self.pointer_pos;
        push_button(&mut events, input.left, PointerButton::Primary, pos, modifiers);
        push_button(&mut events, input.right, PointerButton::Secondary, pos, modifiers);
        push_button(&mut events, input.middle, PointerButton::Middle, pos, modifiers);
        let ghost so_far = event_states(events@);
        let ghost turns = input.wheel@.map_values(
            |delta: [u32; 2]| EventState::MouseWheel { delta, modifiers },
        );
        proof {
            assert(event_states(events@) =~= so_far + turns.take(0));
        }
        for i in 0..input.wheel.len()
            invariant
                turns == input.wheel@.map_values(
                    |delta: [u32; 2]| EventState::MouseWheel { delta, modifiers },
                ),
                event_states(events@) == so_far + turns.take(i as int),
        {
            let ghost before = events@;
            events.push(UiEvent::MouseWheel { delta: input.wheel[i], modifiers });
            proof {
                assert(event_states(events@) =~= event_states(before).push(turns[i as int]));
                assert(turns.take(i + 1) =~= turns.take(i as int).push(turns[i as int]));
                assert(event_states(events@) =~= so_far + turns.take(i + 1));
            }
        }
        proof {
            assert(turns.take(turns.len() as int) =~= turns);
        }
        let ghost so_far = event_states(events@);
        proof {
            assert(event_states(events@) =~= so_far + keyboard_events(
                input.keyboard@,
                modifiers,
                0,
            ));
        }
        for i in 0..input.keyboard.len()
            invariant
                event_states(events@) == so_far + keyboard_events(
                    input.keyboard@,
                    modifiers,
                    i as nat,
                ),
        {
            push_key(&mut events, &input.keyboard[i], modifiers);
            proof {
                assert(event_states(events@) =~= so_far + keyboard_events(
                    input.keyboard@,
                    modifiers,
                    (i + 1) as nat,
                ));
            }
        }
        events
    }
}

} // verus!
