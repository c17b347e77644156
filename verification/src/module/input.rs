use vstd::prelude::*;
use crate::math::V2i;

verus! {

/// The things the player can ask for, whatever key or button asks.
#[derive(Debug, Clone, Copy, PartialEq, Eq, Structural)]
pub enum InputAction {
    /// no action at all
    NoAction,
    Quit,
    MoveUp,
    MoveDown,
    MoveLeft,
    MoveRight,
    LookUp,
    LookDown,
    LookLeft,
    LookRight,
    A,
    B,
    X,
    Y,
    F1,
    F2,
    F3,
    F4,
    F5,
    F6,
    F7,
    F8,
    F9,
    F10,
    F11,
    F12,
    /// the number of actions above
    Count,
}

/// The number of actions, `Count` left out.
pub const ACTION_COUNT: usize = 26;

/// The place of an action in the order of its variants.
pub open spec fn action_index_spec(a: InputAction) -> nat {
    match a {
        InputAction::NoAction => 0,
        InputAction::Quit => 1,
        InputAction::MoveUp => 2,
        InputAction::MoveDown => 3,
        InputAction::MoveLeft => 4,
        InputAction::MoveRight => 5,
        InputAction::LookUp => 6,
        InputAction::LookDown => 7,
        InputAction::LookLeft => 8,
        InputAction::LookRight => 9,
        InputAction::A => 10,
        InputAction::B => 11,
        InputAction::X => 12,
        InputAction::Y => 13,
        InputAction::F1 => 14,
        InputAction::F2 => 15,
        InputAction::F3 => 16,
        InputAction::F4 => 17,
        InputAction::F5 => 18,
        InputAction::F6 => 19,
        InputAction::F7 => 20,
        InputAction::F8 => 21,
        InputAction::F9 => 22,
        InputAction::F10 => 23,
        InputAction::F11 => 24,
        InputAction::F12 => 25,
        InputAction::Count => 26,
    }
}

/// The place of an action in the order of its variants.
pub fn action_index(a: InputAction) -> (i: usize)
    ensures
        i == action_index_spec(a),
{
    match a {
        InputAction::NoAction => 0,
        InputAction::Quit => 1,
        InputAction::MoveUp => 2,
        InputAction::MoveDown => 3,
        InputAction::MoveLeft => 4,
        InputAction::MoveRight => 5,
        InputAction::LookUp => 6,
        InputAction::LookDown => 7,
        InputAction::LookLeft => 8,
        InputAction::LookRight => 9,
        InputAction::A => 10,
        InputAction::B => 11,
        InputAction::X => 12,
        InputAction::Y => 13,
        InputAction::F1 => 14,
        InputAction::F2 => 15,
        InputAction::F3 => 16,
        InputAction::F4 => 17,
        InputAction::F5 => 18,
        InputAction::F6 => 19,
        InputAction::F7 => 20,
        InputAction::F8 => 21,
        InputAction::F9 => 22,
        InputAction::F10 => 23,
        InputAction::F11 => 24,
        InputAction::F12 => 25,
        InputAction::Count => 26,
    }
}

/// A key or button: whether it is down this frame and whether it was in the
/// previous one.
#[derive(Debug, Clone, Copy, PartialEq, Eq, Structural)]
pub struct Button {
    pub is_down: bool,
    pub was_down: bool,
}

impl Button {
    /// A button that is up and was up.
    pub open spec fn new_spec() -> Button {
        Button { is_down: false, was_down: false }
    }

    /// It was pressed this frame.
    pub open spec fn pressed(self) -> bool {
        self.is_down && !self.was_down
    }

    /// It was released this frame.
    pub open spec fn released(self) -> bool {
        !self.is_down && self.was_down
    }

    /// The button at the start of the next frame.
    pub open spec fn next_frame(self) -> Button {
        Button { is_down: self.is_down, was_down: self.is_down }
    }

    pub fn new() -> (b: Button)
        ensures
            b == Button::new_spec(),
    {
        Button { is_down: false, was_down: false }
    }

    /// It was pressed this frame.
    pub fn went_down(self) -> (b: bool)
        ensures
            b == self.pressed(),
    {
        self.is_down && !self.was_down
    }

    /// It was released this frame.
    pub fn went_up(self) -> (b: bool)
        ensures
            b == self.released(),
    {
        !self.is_down && self.was_down
    }

    /// Begin a new frame: what is down now was down before.
    pub fn update(&mut self)
        ensures
            *final(self) == old(self).next_frame(),
    {
        self.was_down = self.is_down;
    }
}

/// The keys that mean something to the program.
#[derive(Debug, Clone, Copy, PartialEq, Eq, Structural)]
pub enum Key {
    W,
    A,
    S,
    D,
    I,
    K,
    J,
    L,
    Q,
    E,
    R,
    F,
    Num0,
    Num1,
    Num2,
    Num3,
    Num4,
    Num5,
    Num6,
    Num7,
    Num8,
    Num9,
    Minus,
    Equals,
    Up,
    Down,
    Left,
    Right,
    LShift,
    RShift,
    /// any other key
    Other,
}

/// The action a key asks for: `W A S D` move, `I K J L` look, `Q E R F`
/// are the buttons, and the number row with `-` and `=` the function keys.
pub open spec fn key_action(k: Key) -> InputAction {
    match k {
        Key::W => InputAction::MoveUp,
        Key::S => InputAction::MoveDown,
        Key::D => InputAction::MoveRight,
        Key::A => InputAction::MoveLeft,
        Key::I => InputAction::LookUp,
        Key::K => InputAction::LookDown,
        Key::L => InputAction::LookRight,
        Key::J => InputAction::LookLeft,
        Key::Q => InputAction::B,
        Key::E => InputAction::A,
        Key::R => InputAction::X,
        Key::F => InputAction::Y,
        Key::Num1 => InputAction::F1,
        Key::Num2 => InputAction::F2,
        Key::Num3 => InputAction::F3,
        Key::Num4 => InputAction::F4,
        Key::Num5 => InputAction::F5,
        Key::Num6 => InputAction::F6,
        Key::Num7 => InputAction::F7,
        Key::Num8 => InputAction::F8,
        Key::Num9 => InputAction::F9,
        Key::Num0 => InputAction::F10,
        Key::Minus => InputAction::F11,
        Key::Equals => InputAction::F12,
        _ => InputAction::NoAction,
    }
}

/// The action a key asks for.
pub fn key_to_action(k: Key) -> (a: InputAction)
    ensures
        a == key_action(k),
{
    match k {
        Key::W => InputAction::MoveUp,
        Key::S => InputAction::MoveDown,
        Key::D => InputAction::MoveRight,
        Key::A => InputAction::MoveLeft,
        Key::I => InputAction::LookUp,
        Key::K => InputAction::LookDown,
        Key::L => InputAction::LookRight,
        Key::J => InputAction::LookLeft,
        Key::Q => InputAction::B,
        Key::E => InputAction::A,
        Key::R => InputAction::X,
        Key::F => InputAction::Y,
        Key::Num1 => InputAction::F1,
        Key::Num2 => InputAction::F2,
        Key::Num3 => InputAction::F3,
        Key::Num4 => InputAction::F4,
        Key::Num5 => InputAction::F5,
        Key::Num6 => InputAction::F6,
        Key::Num7 => InputAction::F7,
        Key::Num8 => InputAction::F8,
        Key::Num9 => InputAction::F9,
        Key::Num0 => InputAction::F10,
        Key::Minus => InputAction::F11,
        Key::Equals => InputAction::F12,
        _ => InputAction::NoAction,
    }
}

/// What the window tells the program, as far as input goes. Buttons of the
/// mouse are its left button.
#[derive(Debug, Clone, Copy, PartialEq, Eq, Structural)]
pub enum InputEvent {
    Quit,
    KeyDown(Key),
    KeyUp(Key),
    MouseDown,
    MouseUp,
    Wheel(i32),
    Motion(i32, i32),
}

/// The buttons `b` with the button at `i` pressed or released.
pub open spec fn set_down_at(b: Seq<Button>, i: int, down: bool) -> Seq<Button> {
    b.update(i, Button { is_down: down, was_down: b[i].was_down })
}

/// The action buttons after the events `es`: closing the window presses
/// `Quit`, and a key presses or releases the button of its action.
pub open spec fn buttons_after(b: Seq<Button>, es: Seq<InputEvent>) -> Seq<Button>
    decreases es.len(),
{
    if es.len() == 0 {
        b
    } else {
        let p = buttons_after(b, es.drop_last());
        match es.last() {
            InputEvent::Quit => set_down_at(p, action_index_spec(InputAction::Quit) as int, true),
            InputEvent::KeyDown(k) => set_down_at(p, action_index_spec(key_action(k)) as int, true),
            InputEvent::KeyUp(k) => set_down_at(p, action_index_spec(key_action(k)) as int, false),
            _ => p,
        }
    }
}

/// The mouse button after the events `es`.
pub open spec fn mouse_down_after(m: Button, es: Seq<InputEvent>) -> Button
    decreases es.len(),
{
    if es.len() == 0 {
        m
    } else {
        let p = mouse_down_after(m, es.drop_last());
        match es.last() {
            InputEvent::MouseDown => Button { is_down: true, was_down: p.was_down },
            InputEvent::MouseUp => Button { is_down: false, was_down: p.was_down },
            _ => p,
        }
    }
}

/// The scrolling after the events `es`: the wheel's steps add up.
pub open spec fn scroll_after(s: int, es: Seq<InputEvent>) -> int
    decreases es.len(),
{
    if es.len() == 0 {
        s
    } else {
        let p = scroll_after(s, es.drop_last());
        match es.last() {
            InputEvent::Wheel(y) => p + y,
            _ => p,
        }
    }
}

/// The mouse position after the events `es`: where it last moved to.
pub open spec fn mouse_after(m: V2i, es: Seq<InputEvent>) -> V2i
    decreases es.len(),
{
    if es.len() == 0 {
        m
    } else {
        let p = mouse_after(m, es.drop_last());
        match es.last() {
            InputEvent::Motion(x, y) => V2i { x, y },
            _ => p,
        }
    }
}

/// Every running sum of the scrolling fits in an `i32`.
pub open spec fn scroll_fits(s: int, es: Seq<InputEvent>) -> bool {
    forall|i: int| 0 <= i <= es.len() ==> i32::MIN <= #[trigger] scroll_after(s, es.take(i)) <= i32::MAX
}

/// One axis of a direction, set by its two buttons: `1` while the positive
/// one is down, `-1` while the negative one is (it wins), and `0` once either
/// is released; otherwise it stays.
pub open spec fn axis_after(v: i32, pos: Button, neg: Button) -> i32 {
    let a = if pos.is_down { 1i32 } else { v };
    let a = if neg.is_down { -1i32 } else { a };
    let a = if pos.released() { 0i32 } else { a };
    if neg.released() { 0i32 } else { a }
}

/// The button of `act` among `b`.
pub open spec fn button_of(b: Seq<Button>, act: InputAction) -> Button {
    b[action_index_spec(act) as int]
}

/// What the player asks for this frame.
pub struct Input {
    pub mouse: V2i,
    pub mouse_down: Button,
    pub scroll: i32,
    /// the direction to move in, each axis -1, 0 or 1 when set by keys
    pub dir_move: V2i,
    /// the direction to look in
    pub dir_look: V2i,
    /// the button of each action, by the place of the action
    pub action: Vec<Button>,
}

impl Input {
    /// The buttons, by the place of their action.
    pub open spec fn buttons(&self) -> Seq<Button> {
        self.action@
    }

    /// There is a button for every action.
    pub open spec fn wf(&self) -> bool {
        self.buttons().len() == ACTION_COUNT
    }

    pub fn new() -> (a: Input)
        ensures
            a.wf(),
            forall|i: int| 0 <= i < ACTION_COUNT ==> #[trigger] a.buttons()[i] == Button::new_spec(),
            a.mouse == (V2i { x: 0, y: 0 }),
            a.mouse_down == Button::new_spec(),
            a.scroll == 0,
            a.dir_move == (V2i { x: 0, y: 0 }),
            a.dir_look == (V2i { x: 0, y: 0 }),
    {
        let mut action: Vec<Button> = Vec::new();
        let mut i: usize = 0;
        while i < ACTION_COUNT
            invariant
                i <= ACTION_COUNT,
                action@.len() == i,
                forall|j: int| 0 <= j < i ==> #[trigger] action@[j] == Button::new_spec(),
            decreases ACTION_COUNT - i,
        {
            action.push(Button::new());
            i = i + 1;
        }
        Input {
            mouse: V2i { x: 0, y: 0 },
            mouse_down: Button::new(),
            scroll: 0,
            dir_move: V2i { x: 0, y: 0 },
            dir_look: V2i { x: 0, y: 0 },
            action,
        }
    }

    /// Begin a new frame: no scrolling yet, and every action button moves on
    /// a frame.
    pub fn begin(&mut self)
        requires
            old(self).wf(),
        ensures
            final(self).wf(),
            final(self).scroll == 0,
            forall|i: int| 0 <= i < ACTION_COUNT ==> #[trigger] final(self).buttons()[i] == old(self).buttons()[i].next_frame(),
            final(self).mouse == old(self).mouse,
            final(self).mouse_down == old(self).mouse_down,
            final(self).dir_move == old(self).dir_move,
            final(self).dir_look == old(self).dir_look,
    {
        self.scroll = 0;
        let mut i: usize = 0;
        while i < self.action.len()
            invariant
                self.action@.len() == ACTION_COUNT,
                old(self).buttons().len() == ACTION_COUNT,
                i <= ACTION_COUNT,
                forall|j: int| 0 <= j < i ==> #[trigger] self.action@[j] == old(self).buttons()[j].next_frame(),
                forall|j: int| i <= j < ACTION_COUNT ==> #[trigger] self.action@[j] == old(self).buttons()[j],
                self.scroll == 0,
                self.mouse == old(self).mouse,
                self.mouse_down == old(self).mouse_down,
                self.dir_move == old(self).dir_move,
                self.dir_look == old(self).dir_look,
            decreases ACTION_COUNT - i,
        {
            let mut b = self.action[i];
            b.update();
            self.action.set(i, b);
            i = i + 1;
        }
    }

    /// The button of `act`.
    pub fn button(&self, act: InputAction) -> (b: Button)
        requires
            self.wf(),
            act != InputAction::Count,
        ensures
            b == button_of(self.buttons(), act),
    {
        self.action[action_index(act)]
    }

    /// Press or release the button of `act`.
    pub fn set_down(&mut self, act: InputAction, down: bool)
        requires
            old(self).wf(),
            act != InputAction::Count,
        ensures
            final(self).wf(),
            final(self).buttons() == set_down_at(old(self).buttons(), action_index_spec(act) as int, down),
            final(self).mouse == old(self).mouse,
            final(self).mouse_down == old(self).mouse_down,
            final(self).scroll == old(self).scroll,
            final(self).dir_move == old(self).dir_move,
            final(self).dir_look == old(self).dir_look,
    {
        let i = action_index(act);
        let mut b = self.action[i];
        b.is_down = down;
        self.action.set(i, b);
    }

    /// Take in the events of a frame: the mouse button moves on a frame, the
    /// events press and release buttons, scroll and move the mouse in turn,
    /// and then the directions follow the move and look buttons.
    pub fn handle_events(&mut self, events: &[InputEvent])
        requires
            old(self).wf(),
            scroll_fits(old(self).scroll as int, events@),
        ensures
            final(self).wf(),
            final(self).buttons() == buttons_after(old(self).buttons(), events@),
            final(self).mouse_down == mouse_down_after(old(self).mouse_down.next_frame(), events@),
            final(self).scroll == scroll_after(old(self).scroll as int, events@),
            final(self).mouse == mouse_after(old(self).mouse, events@),
            ({
                let b = final(self).buttons();
                &&& final(self).dir_move == V2i {
                    x: axis_after(
                        old(self).dir_move.x,
                        button_of(b, InputAction::MoveRight),
                        button_of(b, InputAction::MoveLeft),
                    ),
                    y: axis_after(
                        old(self).dir_move.y,
                        button_of(b, InputAction::MoveUp),
                        button_of(b, InputAction::MoveDown),
                    ),
                }
                &&& final(self).dir_look == V2i {
                    x: axis_after(
                        old(self).dir_look.x,
                        button_of(b, InputAction::LookRight),
                        button_of(b, InputAction::LookLeft),
                    ),
                    y: axis_after(
                        old(self).dir_look.y,
                        button_of(b, InputAction::LookUp),
                        button_of(b, InputAction::LookDown),
                    ),
                }
            }),
    {
        let ghost b0 = self.buttons();
        let ghost m0 = self.mouse;
        let ghost s0 = self.scroll as int;
        let ghost dm0 = self.dir_move;
        let ghost dl0 = self.dir_look;
        self.mouse_down.update();
        let ghost md0 = self.mouse_down;
        let n = events.len();
        let mut i: usize = 0;
        while i < n
            invariant
                i <= n,
                n == events@.len(),
                self.wf(),
                scroll_fits(s0, events@),
                self.buttons() == buttons_after(b0, events@.take(i as int)),
                self.mouse_down == mouse_down_after(md0, events@.take(i as int)),
                self.scroll == scroll_after(s0, events@.take(i as int)),
                self.mouse == mouse_after(m0, events@.take(i as int)),
                self.dir_move == dm0,
                self.dir_look == dl0,
            decreases n - i,
        {
            let ghost t = events@.take(i + 1);
            proof {
                assert(t.drop_last() =~= events@.take(i as int));
                assert(t.last() == events@[i as int]);
                assert(i32::MIN <= scroll_after(s0, t) <= i32::MAX);
            }
            match events[i] {
                InputEvent::Quit => self.set_down(InputAction::Quit, true),
                InputEvent::KeyDown(k) => self.set_down(key_to_action(k), true),
                InputEvent::KeyUp(k) => self.set_down(key_to_action(k), false),
                InputEvent::MouseDown => self.mouse_down.is_down = true,
                InputEvent::MouseUp => self.mouse_down.is_down = false,
                InputEvent::Wheel(y) => self.scroll = self.scroll + y,
                InputEvent::Motion(x, y) => self.mouse = V2i { x, y },
            }
            i = i + 1;
        }
        proof {
            assert(events@.take(n as int) =~= events@);
        }

        let up = self.button(InputAction::MoveUp);
        let down = self.button(InputAction::MoveDown);
        let right = self.button(InputAction::MoveRight);
        let left = self.button(InputAction::MoveLeft);
        self.dir_move = V2i { x: axis(self.dir_move.x, right, left), y: axis(self.dir_move.y, up, down) };
        let up = self.button(InputAction::LookUp);
        let down = self.button(InputAction::LookDown);
        let right = self.button(InputAction::LookRight);
        let left = self.button(InputAction::LookLeft);
        self.dir_look = V2i { x: axis(self.dir_look.x, right, left), y: axis(self.dir_look.y, up, down) };
    }
}

/// One axis of a direction from its two buttons, as `axis_after` says.
fn axis(v: i32, pos: Button, neg: Button) -> (r: i32)
    ensures
        r == axis_after(v, pos, neg),
{
    let mut a = v;
    if pos.is_down {
        a = 1;
    }
    if neg.is_down {
        a = -1;
    }
    if pos.went_up() {
        a = 0;
    }
    if neg.went_up() {
        a = 0;
    }
    a
}

/// Each key asks for its own action: no two keys ask for the same action,
/// `W` `A` `S` `D` move up, left, down and right, and `I` `J` `K` `L` look
/// up, left, down and right, so `I` and `K` (and `J` and `L`) ask for
/// opposite directions. No other key moves or looks.
pub proof fn law_each_key_its_own_action(k1: Key, k2: Key)
    ensures
        key_action(k1) == key_action(k2) && key_action(k1) != InputAction::NoAction ==> k1 == k2,
        (key_action(k1) == InputAction::MoveUp) == (k1 == Key::W),
        (key_action(k1) == InputAction::MoveLeft) == (k1 == Key::A),
        (key_action(k1) == InputAction::MoveDown) == (k1 == Key::S),
        (key_action(k1) == InputAction::MoveRight) == (k1 == Key::D),
        (key_action(k1) == InputAction::LookUp) == (k1 == Key::I),
        (key_action(k1) == InputAction::LookLeft) == (k1 == Key::J),
        (key_action(k1) == InputAction::LookDown) == (k1 == Key::K),
        (key_action(k1) == InputAction::LookRight) == (k1 == Key::L),
{
}

/// A button pressed in a frame counts as pressed once: once `update` starts
/// the next frame it is neither pressed nor released, until it changes again.
pub proof fn law_press_counts_once(b: Button)
    ensures
        !b.next_frame().pressed(),
        !b.next_frame().released(),
{
}

/// Pressing a key and releasing it in the same frame leaves its action's
/// button up.
pub proof fn law_press_release_in_frame(b: Seq<Button>, k: Key)
    requires
        b.len() == ACTION_COUNT,
    ensures
        !button_of(buttons_after(b, seq![InputEvent::KeyDown(k), InputEvent::KeyUp(k)]), key_action(k)).is_down,
{
    let es = seq![InputEvent::KeyDown(k), InputEvent::KeyUp(k)];
    let one = seq![InputEvent::KeyDown(k)];
    let i = action_index_spec(key_action(k)) as int;
    assert(es.drop_last() =~= one);
    assert(es.last() == InputEvent::KeyUp(k));
    assert(one.drop_last() =~= Seq::<InputEvent>::empty());
    assert(i < ACTION_COUNT);
    let p1 = buttons_after(b, one);
    assert(buttons_after(b, one.drop_last()) == b);
    assert(one.last() == InputEvent::KeyDown(k));
    assert(p1 == set_down_at(b, i, true));
    assert(buttons_after(b, es) == set_down_at(p1, i, false));
}

} // verus!
