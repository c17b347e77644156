pub mod builder;
pub mod queue;
pub mod storage;
pub mod tile;

use vstd::prelude::*;
use crate::module::input::Key;

verus! {

/// One step of the iteration `z -> f(z)` that a fractal is made of.
#[derive(PartialEq, Eq, Structural, Clone, Copy, Debug)]
pub enum FractalStep {
    /// z = z^2
    Square,
    /// z = z^3
    Cube,
    /// z = |real(z)| + imag(z) * i
    AbsR,
    /// z = real(z) - |imag(z)| * i
    AbsI,
    ///  z = z + c
    AddC,
    /// complex conjugate
    Conj,
}

/// The steps of the Mandelbrot set, which the viewer starts with.
pub fn mandelbrot_steps() -> (s: Vec<FractalStep>)
    ensures
        s@ == seq![FractalStep::Square, FractalStep::AddC],
{
    let mut s = Vec::new();
    s.push(FractalStep::Square);
    s.push(FractalStep::AddC);
    s
}

/// The steps offered to the user, in the order of their buttons.
pub fn step_palette() -> (s: Vec<FractalStep>)
    ensures
        s@ == seq![
            FractalStep::Square,
            FractalStep::Cube,
            FractalStep::AddC,
            FractalStep::AbsR,
            FractalStep::AbsI,
            FractalStep::Conj,
        ],
{
    let mut s = Vec::new();
    s.push(FractalStep::Square);
    s.push(FractalStep::Cube);
    s.push(FractalStep::AddC);
    s.push(FractalStep::AbsR);
    s.push(FractalStep::AbsI);
    s.push(FractalStep::Conj);
    s
}

/// The image that shows the step `s` on its button.
pub fn step_image(s: FractalStep) -> (path: &'static str)
    ensures
        path@ == match s {
            FractalStep::Square => "res/mod_2.png"@,
            FractalStep::Cube => "res/mod_3.png"@,
            FractalStep::AbsR => "res/mod_abs_r.png"@,
            FractalStep::AbsI => "res/mod_abs_i.png"@,
            FractalStep::AddC => "res/mod_c.png"@,
            FractalStep::Conj => "res/mod_conj.png"@,
        },
{
    match s {
        FractalStep::Square => "res/mod_2.png",
        FractalStep::Cube => "res/mod_3.png",
        FractalStep::AbsR => "res/mod_abs_r.png",
        FractalStep::AbsI => "res/mod_abs_i.png",
        FractalStep::AddC => "res/mod_c.png",
        FractalStep::Conj => "res/mod_conj.png",
    }
}

/// The front of a button: pressed, under the mouse, or at rest.
pub fn button_front_image(down: bool, hover: bool) -> (path: &'static str)
    ensures
        path@ == if down {
            "res/button_front_down.png"@
        } else if hover {
            "res/button_front_hot.png"@
        } else {
            "res/button_front_norm.png"@
        },
{
    if down {
        "res/button_front_down.png"
    } else if hover {
        "res/button_front_hot.png"
    } else {
        "res/button_front_norm.png"
    }
}

/// `s` after removing, one after the other, the elements at the positions
/// `idx`, each position counted in what is left at its turn.
pub open spec fn removed_in_turn<T>(s: Seq<T>, idx: Seq<usize>) -> Seq<T>
    decreases idx.len(),
{
    if idx.len() == 0 {
        s
    } else {
        removed_in_turn(s, idx.drop_last()).remove(idx.last() as int)
    }
}

/// Each position of `idx` is inside what is left at its turn.
pub open spec fn removable_in_turn<T>(s: Seq<T>, idx: Seq<usize>) -> bool
    decreases idx.len(),
{
    idx.len() == 0 || (removable_in_turn(s, idx.drop_last()) && idx.last() < removed_in_turn(
        s,
        idx.drop_last(),
    ).len())
}

proof fn lemma_removable_prefix<T>(s: Seq<T>, idx: Seq<usize>, i: int)
    requires
        removable_in_turn(s, idx),
        0 <= i <= idx.len(),
    ensures
        removable_in_turn(s, idx.take(i)),
    decreases idx.len(),
{
    if i < idx.len() {
        assert(idx.drop_last().take(i) =~= idx.take(i));
        lemma_removable_prefix(s, idx.drop_last(), i);
    } else {
        assert(idx.take(i) =~= idx);
    }
}

/// Remove the steps whose buttons were clicked, in the order of `remove`;
/// each position is counted in the steps that are left at its turn.
pub fn remove_steps(steps: &mut Vec<FractalStep>, remove: &[usize])
    requires
        removable_in_turn(old(steps)@, remove@),
    ensures
        final(steps)@ == removed_in_turn(old(steps)@, remove@),
{
    let ghost s = steps@;
    let n = remove.len();
    let mut i: usize = 0;
    while i < n
        invariant
            i <= n,
            n == remove@.len(),
            removable_in_turn(s, remove@),
            steps@ == removed_in_turn(s, remove@.take(i as int)),
        decreases n - i,
    {
        proof {
            lemma_removable_prefix(s, remove@, i + 1);
            assert(remove@.take(i + 1).drop_last() =~= remove@.take(i as int));
        }
        steps.remove(remove[i]);
        i = i + 1;
    }
    proof {
        assert(remove@.take(n as int) =~= remove@);
    }
}

/// The steps of the palette whose buttons were clicked, in palette order.
pub open spec fn clicked_steps(palette: Seq<FractalStep>, clicked: Seq<bool>) -> Seq<FractalStep>
    decreases palette.len(),
{
    if palette.len() == 0 {
        Seq::empty()
    } else {
        let rest = clicked_steps(palette.drop_last(), clicked);
        if clicked[palette.len() - 1] {
            rest.push(palette.last())
        } else {
            rest
        }
    }
}

/// Add, in palette order, the steps whose buttons were clicked this frame.
/// Gives whether any was added, so that the builder is made again.
pub fn add_clicked_steps(steps: &mut Vec<FractalStep>, palette: &[FractalStep], clicked: &[bool]) -> (changed: bool)
    requires
        palette@.len() == clicked@.len(),
    ensures
        final(steps)@ == old(steps)@ + clicked_steps(palette@, clicked@),
        changed == (clicked_steps(palette@, clicked@).len() > 0),
{
    let ghost s0 = steps@;
    let mut changed = false;
    let n = palette.len();
    let mut i: usize = 0;
    while i < n
        invariant
            i <= n,
            n == palette@.len(),
            n == clicked@.len(),
            steps@ == s0 + clicked_steps(palette@.take(i as int), clicked@),
            changed == (clicked_steps(palette@.take(i as int), clicked@).len() > 0),
        decreases n - i,
    {
        proof {
            assert(palette@.take(i + 1).drop_last() =~= palette@.take(i as int));
            assert(palette@.take(i + 1).last() == palette@[i as int]);
        }
        if clicked[i] {
            steps.push(palette[i]);
            changed = true;
            proof {
                assert(steps@ =~= s0 + clicked_steps(palette@.take(i + 1), clicked@));
            }
        }
        i = i + 1;
    }
    proof {
        assert(palette@.take(n as int) =~= palette@);
    }
    changed
}

/// What the held keys ask of the view this frame: a direction to move in on
/// each axis, whether to move fast, and which way to zoom.
#[derive(Debug, Clone, Copy, PartialEq, Eq, Structural)]
pub struct Movement {
    pub dir_x: i32,
    pub dir_y: i32,
    pub fast: bool,
    pub zoom: i32,
}

/// The sideways step of one key: `D` and right go right, `A` and left go left.
pub open spec fn key_dx(k: Key) -> int {
    match k {
        Key::D | Key::Right => 1,
        Key::A | Key::Left => -1,
        _ => 0,
    }
}

/// The upward step of one key: `W` and up go up, `S` and down go down.
pub open spec fn key_dy(k: Key) -> int {
    match k {
        Key::W | Key::Up => 1,
        Key::S | Key::Down => -1,
        _ => 0,
    }
}

/// The zoom step of one key: `I` zooms in, `K` zooms out.
pub open spec fn key_dzoom(k: Key) -> int {
    match k {
        Key::I => 1,
        Key::K => -1,
        _ => 0,
    }
}

/// The sum of `f` over the keys.
pub open spec fn key_sum(keys: Seq<Key>, f: spec_fn(Key) -> int) -> int
    decreases keys.len(),
{
    if keys.len() == 0 {
        0
    } else {
        key_sum(keys.drop_last(), f) + f(keys.last())
    }
}

proof fn lemma_key_sum_bound(keys: Seq<Key>, f: spec_fn(Key) -> int)
    requires
        forall|k: Key| -1 <= #[trigger] f(k) <= 1,
    ensures
        -keys.len() <= key_sum(keys, f) <= keys.len(),
    decreases keys.len(),
{
    if keys.len() > 0 {
        lemma_key_sum_bound(keys.drop_last(), f);
    }
}

/// Holding one more key moves the view one step more its way: `D` and right
/// one step right, `A` and left one step left, `W` and up one step up, `S`
/// and down one step down, `I` zooms in and `K` out; keys that ask for one
/// axis leave the others as they are.
pub proof fn law_held_key_steps(keys: Seq<Key>, k: Key)
    ensures
        key_sum(keys.push(k), |k: Key| key_dx(k)) == key_sum(keys, |k: Key| key_dx(k)) + if k == Key::D || k
            == Key::Right {
            1int
        } else if k == Key::A || k == Key::Left {
            -1int
        } else {
            0int
        },
        key_sum(keys.push(k), |k: Key| key_dy(k)) == key_sum(keys, |k: Key| key_dy(k)) + if k == Key::W || k
            == Key::Up {
            1int
        } else if k == Key::S || k == Key::Down {
            -1int
        } else {
            0int
        },
        key_sum(keys.push(k), |k: Key| key_dzoom(k)) == key_sum(keys, |k: Key| key_dzoom(k)) + if k == Key::I {
            1int
        } else if k == Key::K {
            -1int
        } else {
            0int
        },
{
    assert(keys.push(k).drop_last() =~= keys);
    assert(keys.push(k).last() == k);
}

/// The movement that the held keys ask for: their steps add up, and a shift
/// key makes it fast.
pub fn key_movement(keys: &[Key]) -> (m: Movement)
    requires
        keys@.len() <= i32::MAX,
    ensures
        m.dir_x == key_sum(keys@, |k: Key| key_dx(k)),
        m.dir_y == key_sum(keys@, |k: Key| key_dy(k)),
        m.zoom == key_sum(keys@, |k: Key| key_dzoom(k)),
        m.fast == (keys@.contains(Key::LShift) || keys@.contains(Key::RShift)),
{
    let ghost fx = |k: Key| key_dx(k);
    let ghost fy = |k: Key| key_dy(k);
    let ghost fz = |k: Key| key_dzoom(k);
    let mut m = Movement { dir_x: 0, dir_y: 0, fast: false, zoom: 0 };
    let n = keys.len();
    let mut i: usize = 0;
    while i < n
        invariant
            i <= n,
            n == keys@.len(),
            n <= i32::MAX,
            fx == (|k: Key| key_dx(k)),
            fy == (|k: Key| key_dy(k)),
            fz == (|k: Key| key_dzoom(k)),
            m.dir_x == key_sum(keys@.take(i as int), fx),
            m.dir_y == key_sum(keys@.take(i as int), fy),
            m.zoom == key_sum(keys@.take(i as int), fz),
            m.fast == (keys@.take(i as int).contains(Key::LShift) || keys@.take(i as int).contains(Key::RShift)),
        decreases n - i,
    {
        let ghost t = keys@.take(i as int);
        proof {
            assert(keys@.take(i + 1).drop_last() =~= t);
            assert(keys@.take(i + 1).last() == keys@[i as int]);
            lemma_key_sum_bound(t, fx);
            lemma_key_sum_bound(t, fy);
            lemma_key_sum_bound(t, fz);
        }
        let k = keys[i];
        match k {
            Key::W | Key::Up => m.dir_y = m.dir_y + 1,
            Key::S | Key::Down => m.dir_y = m.dir_y - 1,
            Key::D | Key::Right => m.dir_x = m.dir_x + 1,
            Key::A | Key::Left => m.dir_x = m.dir_x - 1,
            Key::LShift | Key::RShift => m.fast = true,
            Key::I => m.zoom = m.zoom + 1,
            Key::K => m.zoom = m.zoom - 1,
            _ => {},
        }
        proof {
            let u = keys@.take(i + 1);
            assert(u.contains(Key::LShift) == (t.contains(Key::LShift) || k == Key::LShift)) by {
                if t.contains(Key::LShift) {
                    let w = choose|w: int| 0 <= w < t.len() && t[w] == Key::LShift;
                    assert(u[w] == Key::LShift);
                }
                if k == Key::LShift {
                    assert(u[i as int] == Key::LShift);
                }
                if u.contains(Key::LShift) {
                    let w = choose|w: int| 0 <= w < u.len() && u[w] == Key::LShift;
                    if w < i {
                        assert(t[w] == Key::LShift);
                    }
                }
            }
            assert(u.contains(Key::RShift) == (t.contains(Key::RShift) || k == Key::RShift)) by {
                if t.contains(Key::RShift) {
                    let w = choose|w: int| 0 <= w < t.len() && t[w] == Key::RShift;
                    assert(u[w] == Key::RShift);
                }
                if k == Key::RShift {
                    assert(u[i as int] == Key::RShift);
                }
                if u.contains(Key::RShift) {
                    let w = choose|w: int| 0 <= w < u.len() && u[w] == Key::RShift;
                    if w < i {
                        assert(t[w] == Key::RShift);
                    }
                }
            }
        }
        i = i + 1;
    }
    proof {
        assert(keys@.take(n as int) =~= keys@);
    }
    m
}

} // verus!
