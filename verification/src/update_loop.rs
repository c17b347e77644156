use vstd::prelude::*;
use crate::math::{V2i, V2u};
use crate::module::input::Key;

verus! {

/// No key occurs twice in `s`.
pub open spec fn distinct_keys(s: Seq<Key>) -> bool {
    forall|i: int, j: int| 0 <= i < j < s.len() ==> s[i] != s[j]
}

/// Keep the set of keys held down up to date: a pressed key is added unless
/// it is held already, and a released key is taken out, the last key taking
/// its place.
pub fn key_event(keys: &mut Vec<Key>, key: Key, pressed: bool)
    ensures
        pressed ==> final(keys)@ == if old(keys)@.contains(key) {
            old(keys)@
        } else {
            old(keys)@.push(key)
        },
        !pressed && !old(keys)@.contains(key) ==> final(keys)@ == old(keys)@,
        !pressed && old(keys)@.contains(key) ==> exists|i: int|
            0 <= i < old(keys)@.len() && old(keys)@[i] == key && (forall|j: int|
                0 <= j < i ==> old(keys)@[j] != key) && final(keys)@ == old(keys)@.update(
                i,
                old(keys)@.last(),
            ).drop_last(),
        distinct_keys(old(keys)@) ==> distinct_keys(final(keys)@),
        distinct_keys(old(keys)@) ==> forall|x: Key|
            #[trigger] final(keys)@.contains(x) == if pressed {
                old(keys)@.contains(x) || x == key
            } else {
                old(keys)@.contains(x) && x != key
            },
{
    let ghost o = keys@;
    let n = keys.len();
    let mut i: usize = 0;
    while i < n
        invariant
            i <= n,
            n == keys@.len(),
            keys@ == o,
            forall|j: int| 0 <= j < i ==> o[j] != key,
        ensures
            i <= n,
            keys@ == o,
            forall|j: int| 0 <= j < i ==> o[j] != key,
            i < n ==> o[i as int] == key,
        decreases n - i,
    {
        if keys[i] == key {
            break;
        }
        i = i + 1;
    }
    if i < n {
        proof {
            assert(o[i as int] == key);
            assert(o.contains(key));
        }
        if !pressed {
            keys.swap_remove(i);
            proof {
                let f = keys@;
                assert(f == o.update(i as int, o.last()).drop_last());
                if distinct_keys(o) {
                    assert forall|a: int, b: int| 0 <= a < b < f.len() implies f[a] != f[b] by {
                        if a == i {
                            assert(f[a] == o[o.len() - 1]);
                            assert(f[b] == o[b]);
                        } else if b == i {
                            assert(f[b] == o[o.len() - 1]);
                            assert(f[a] == o[a]);
                        } else {
                            assert(f[a] == o[a] && f[b] == o[b]);
                        }
                    }
                    assert forall|x: Key| #[trigger] f.contains(x) == (o.contains(x) && x != key) by {
                        if f.contains(x) {
                            let w = choose|w: int| 0 <= w < f.len() && f[w] == x;
                            if w == i {
                                assert(x == o[o.len() - 1]);
                                assert(o[o.len() - 1] != o[i as int] || o.len() - 1 == i);
                            } else {
                                assert(x == o[w]);
                                assert(o[w] != o[i as int]);
                            }
                        }
                        if o.contains(x) && x != key {
                            let w = choose|w: int| 0 <= w < o.len() && o[w] == x;
                            assert(w != i);
                            if w == o.len() - 1 {
                                assert(f[i as int] == x);
                            } else {
                                assert(f[w] == x);
                            }
                        }
                    }
                }
            }
        } else {
            proof {
                if distinct_keys(o) {
                    assert forall|x: Key| #[trigger] o.contains(x) == (o.contains(x) || x == key) by {}
                }
            }
        }
    } else {
        proof {
            assert forall|j: int| 0 <= j < o.len() implies o[j] != key by {}
            assert(!o.contains(key));
        }
        if pressed {
            keys.push(key);
            proof {
                let f = keys@;
                assert forall|a: int, b: int| 0 <= a < b < f.len() && distinct_keys(o) implies f[a] != f[b] by {
                    if b == o.len() {
                        assert(f[a] == o[a]);
                    }
                }
                assert forall|x: Key| #[trigger] f.contains(x) == (o.contains(x) || x == key) by {
                    if f.contains(x) {
                        let w = choose|w: int| 0 <= w < f.len() && f[w] == x;
                        if w < o.len() {
                            assert(o[w] == x);
                        }
                    }
                    if o.contains(x) {
                        let w = choose|w: int| 0 <= w < o.len() && o[w] == x;
                        assert(f[w] == x);
                    }
                    if x == key {
                        assert(f[o.len() as int] == x);
                    }
                }
            }
        }
    }
}

/// What the window reports to the frame loop, reduced to what the loop
/// keeps. The wheel and the frame timing are floating point and stay with
/// the caller.
#[derive(Debug, Clone, Copy, PartialEq, Eq, Structural)]
pub enum LoopEvent {
    /// a key went down (`true`) or up (`false`)
    Key(Key, bool),
    /// a mouse button went down (`true`) or up; the first field tells whether
    /// it is the left one
    MouseButton(bool, bool),
    /// the pointer moved to this position
    CursorMoved(i32, i32),
    /// the window has this size now
    Resized(u32, u32),
    /// the close button was pressed
    CloseRequested,
    /// every pending event is handled; the field tells whether the time for
    /// the next frame has come
    EventsCleared(bool),
    /// anything else
    Other,
}

/// What the frame loop does after an event.
#[derive(Debug, Clone, Copy, PartialEq, Eq, Structural)]
pub enum LoopAction {
    /// wait for the next event
    Wait,
    /// leave the loop
    Exit,
    /// run one update with the input as it stands, then call `updated`
    Update,
}

/// The input that the frame loop hands to each update.
pub struct Input {
    pub resolution: V2u,
    pub mouse: V2i,
    /// the left button is held
    pub mouse_down: bool,
    /// the left button went down since the last update, and is still held
    pub mouse_click: bool,
    /// the keys held down, each once
    pub keys_down: Vec<Key>,
}

impl Input {
    /// Nothing held, the pointer at the origin.
    pub fn new(resolution: V2u) -> (r: Input)
        ensures
            r.wf(),
            r.resolution == resolution,
            r.mouse == (V2i { x: 0, y: 0 }),
            !r.mouse_down,
            !r.mouse_click,
            r.keys_down@ == Seq::<Key>::empty(),
    {
        Input { resolution, mouse: V2i { x: 0, y: 0 }, mouse_down: false, mouse_click: false, keys_down: Vec::new() }
    }

    /// No key is held twice.
    pub open spec fn wf(&self) -> bool {
        distinct_keys(self.keys_down@)
    }

    /// Whether `key` is held down.
    pub fn key(&self, key: Key) -> (r: bool)
        ensures
            r == self.keys_down@.contains(key),
    {
        let mut i: usize = 0;
        while i < self.keys_down.len()
            invariant
                i <= self.keys_down@.len(),
                forall|j: int| 0 <= j < i ==> self.keys_down@[j] != key,
            decreases self.keys_down@.len() - i,
        {
            if self.keys_down[i] == key {
                return true;
            }
            i = i + 1;
        }
        false
    }

    /// Take one event of the window: keys go in and out of the held set, the
    /// left button sets both `mouse_down` and `mouse_click` to whether it went
    /// down, the pointer and the size follow the window. A close request ends
    /// the loop; once the events are cleared an update runs when it is due.
    pub fn handle(&mut self, event: LoopEvent) -> (a: LoopAction)
        requires
            old(self).wf(),
        ensures
            final(self).wf(),
            a == match event {
                LoopEvent::CloseRequested => LoopAction::Exit,
                LoopEvent::EventsCleared(true) => LoopAction::Update,
                _ => LoopAction::Wait,
            },
            final(self).resolution == match event {
                LoopEvent::Resized(w, h) => V2u { x: w, y: h },
                _ => old(self).resolution,
            },
            final(self).mouse == match event {
                LoopEvent::CursorMoved(x, y) => V2i { x, y },
                _ => old(self).mouse,
            },
            final(self).mouse_down == match event {
                LoopEvent::MouseButton(true, pressed) => pressed,
                _ => old(self).mouse_down,
            },
            final(self).mouse_click == match event {
                LoopEvent::MouseButton(true, pressed) => pressed,
                _ => old(self).mouse_click,
            },
            match event {
                LoopEvent::Key(key, pressed) => forall|x: Key|
                    #[trigger] final(self).keys_down@.contains(x) == if pressed {
                        old(self).keys_down@.contains(x) || x == key
                    } else {
                        old(self).keys_down@.contains(x) && x != key
                    },
                _ => final(self).keys_down@ == old(self).keys_down@,
            },
    {
        match event {
            LoopEvent::Key(key, pressed) => {
                key_event(&mut self.keys_down, key, pressed);
                LoopAction::Wait
            },
            LoopEvent::MouseButton(left, pressed) => {
                if left {
                    self.mouse_down = pressed;
                    self.mouse_click = pressed;
                }
                LoopAction::Wait
            },
            LoopEvent::CursorMoved(x, y) => {
                self.mouse = V2i { x, y };
                LoopAction::Wait
            },
            LoopEvent::Resized(w, h) => {
                self.resolution = V2u { x: w, y: h };
                LoopAction::Wait
            },
            LoopEvent::CloseRequested => LoopAction::Exit,
            LoopEvent::EventsCleared(due) => {
                if due {
                    LoopAction::Update
                } else {
                    LoopAction::Wait
                }
            },
            LoopEvent::Other => LoopAction::Wait,
        }
    }

    /// After an update: a click is counted by one update only.
    pub fn updated(&mut self)
        ensures
            !final(self).mouse_click,
            final(self).mouse_down == old(self).mouse_down,
            final(self).mouse == old(self).mouse,
            final(self).resolution == old(self).resolution,
            final(self).keys_down@ == old(self).keys_down@,
    {
        self.mouse_click = false;
    }
}

} // verus!
