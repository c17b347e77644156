use vstd::prelude::*;

verus! {

/// One step of a fractal's iteration.
#[derive(Clone, Copy, PartialEq, Eq, Structural, Debug)]
pub enum AlgStep {
    /// `z*z + c`
    Pow2,
    /// `z*z*z + c`
    Pow3,
    /// `|re z| - i|im z|`
    Abs,
}

/// The iteration of a fractal: its steps, in order.
#[derive(Debug)]
pub struct GenericAlg {
    pub steps: Vec<AlgStep>,
}

/// The fractal that only adds `c`, to look at the machinery.
pub struct Debug {}

/// `z = z^2 + c`
pub struct Mandelbrot {}

/// `z = |re z| - i|im z|; z = z^2 + c`
pub struct BurningShip {}

/// The cubic Mandelbrot and the burning ship in turn.
pub struct ShipHybrid {}

/// How many Mandelbrot iterations a step is worth, in halves: a square is
/// one, a cube one and a half, and taking absolute values nothing.
pub open spec fn step_halves(s: AlgStep) -> nat {
    match s {
        AlgStep::Pow2 => 2,
        AlgStep::Pow3 => 3,
        AlgStep::Abs => 0,
    }
}

/// The worth of the steps `s` together, in halves.
pub open spec fn steps_halves(s: Seq<AlgStep>) -> nat
    decreases s.len(),
{
    if s.len() == 0 {
        0
    } else {
        steps_halves(s.drop_last()) + step_halves(s.last())
    }
}

proof fn lemma_steps_halves_bound(s: Seq<AlgStep>)
    ensures
        steps_halves(s) <= 3 * s.len(),
    decreases s.len(),
{
    if s.len() > 0 {
        lemma_steps_halves_bound(s.drop_last());
    }
}

impl AlgStep {
    /// The worth of this step in Mandelbrot iterations, in halves.
    pub fn iterations_per_step_halves(&self) -> (n: u32)
        ensures
            n == step_halves(*self),
    {
        match self {
            AlgStep::Pow2 => 2,
            AlgStep::Pow3 => 3,
            AlgStep::Abs => 0,
        }
    }

    /// This step alone.
    pub fn steps(&self) -> (g: GenericAlg)
        ensures
            g.steps@ == seq![*self],
    {
        let mut steps = Vec::new();
        steps.push(*self);
        GenericAlg { steps }
    }
}

impl GenericAlg {
    /// The worth of all steps in Mandelbrot iterations, in halves, and at
    /// least one whole iteration.
    pub fn iterations_per_step_halves(&self) -> (n: u32)
        requires
            self.steps@.len() <= u32::MAX / 3,
        ensures
            n == if steps_halves(self.steps@) < 2 {
                2
            } else {
                steps_halves(self.steps@)
            },
    {
        let mut sum: u32 = 0;
        let mut i: usize = 0;
        while i < self.steps.len()
            invariant
                i <= self.steps@.len() <= u32::MAX / 3,
                sum == steps_halves(self.steps@.take(i as int)),
            decreases self.steps@.len() - i,
        {
            proof {
                assert(self.steps@.take(i + 1).drop_last() =~= self.steps@.take(i as int));
                lemma_steps_halves_bound(self.steps@.take(i + 1));
            }
            sum = sum + self.steps[i].iterations_per_step_halves();
            i = i + 1;
        }
        proof {
            assert(self.steps@.take(i as int) =~= self.steps@);
        }
        if sum < 2 {
            2
        } else {
            sum
        }
    }

    /// The same steps.
    pub fn steps(&self) -> (g: GenericAlg)
        ensures
            g.steps@ == self.steps@,
    {
        GenericAlg { steps: self.steps.clone() }
    }
}

impl Debug {
    /// No steps at all: only `c` is added.
    pub fn steps(&self) -> (g: GenericAlg)
        ensures
            g.steps@ == Seq::<AlgStep>::empty(),
    {
        GenericAlg { steps: Vec::new() }
    }
}

impl Mandelbrot {
    pub fn steps(&self) -> (g: GenericAlg)
        ensures
            g.steps@ == seq![AlgStep::Pow2],
    {
        let mut steps = Vec::new();
        steps.push(AlgStep::Pow2);
        GenericAlg { steps }
    }
}

impl BurningShip {
    pub fn steps(&self) -> (g: GenericAlg)
        ensures
            g.steps@ == seq![AlgStep::Abs, AlgStep::Pow2],
    {
        let mut steps = Vec::new();
        steps.push(AlgStep::Abs);
        steps.push(AlgStep::Pow2);
        GenericAlg { steps }
    }
}

impl ShipHybrid {
    pub fn steps(&self) -> (g: GenericAlg)
        ensures
            g.steps@ == seq![AlgStep::Pow3, AlgStep::Abs, AlgStep::Pow2],
    {
        let mut steps = Vec::new();
        steps.push(AlgStep::Pow3);
        steps.push(AlgStep::Abs);
        steps.push(AlgStep::Pow2);
        GenericAlg { steps }
    }
}

} // verus!
