//! The source of the shader that computes a tile on the GPU: a template in
//! which the fractal's steps are filled in.
use vstd::prelude::*;
use crate::fractal::FractalStep;
use crate::util::{replace_all, replaced};

verus! {

/// The WGSL lines that carry out one step on `z`, the point `c` and the
/// iteration count `t`.
pub open spec fn step_wgsl(step: FractalStep) -> Seq<char> {
    match step {
        FractalStep::Conj => "z.y = -z.y;\n"@,
        FractalStep::AbsR => "z.x = abs(z.x);\n"@,
        FractalStep::AbsI => "z.y = -abs(z.y);\n"@,
        FractalStep::Square => "z = cpx_sqr(z);\n"@,
        FractalStep::Cube => "z = cpx_cube(z);\n"@,
        FractalStep::AddC => "z = z + c;\nt = t + 1.0;\n"@,
    }
}

/// The lines of all the steps, in their order.
pub open spec fn steps_wgsl(steps: Seq<FractalStep>) -> Seq<char>
    decreases steps.len(),
{
    if steps.len() == 0 {
        Seq::empty()
    } else {
        steps_wgsl(steps.drop_last()) + step_wgsl(steps.last())
    }
}

/// The shader source made from `template`: each `REAL` becomes `f32`, then
/// each `@IMPL@` becomes the lines of the steps.
pub open spec fn shader_wgsl(template: Seq<char>, steps: Seq<FractalStep>) -> Seq<char> {
    replaced(replaced(template, "REAL"@, "f32"@), "@IMPL@"@, steps_wgsl(steps))
}

/// The WGSL lines of one step.
pub fn step_code(step: FractalStep) -> (s: &'static str)
    ensures
        s@ == step_wgsl(step),
{
    match step {
        FractalStep::Conj => "z.y = -z.y;\n",
        FractalStep::AbsR => "z.x = abs(z.x);\n",
        FractalStep::AbsI => "z.y = -abs(z.y);\n",
        FractalStep::Square => "z = cpx_sqr(z);\n",
        FractalStep::Cube => "z = cpx_cube(z);\n",
        FractalStep::AddC => "z = z + c;\nt = t + 1.0;\n",
    }
}

/// The lines of all the steps of `alg`, one after the other.
pub fn shader_impl(alg: &[FractalStep]) -> (s: String)
    ensures
        s@ == steps_wgsl(alg@),
{
    let mut s = String::new();
    let mut i: usize = 0;
    while i < alg.len()
        invariant
            i <= alg@.len(),
            s@ == steps_wgsl(alg@.take(i as int)),
        decreases alg@.len() - i,
    {
        s.append(step_code(alg[i]));
        proof {
            assert(alg@.take(i + 1).drop_last() =~= alg@.take(i as int));
        }
        i = i + 1;
    }
    assert(alg@.take(alg@.len() as int) =~= alg@);
    s
}

/// The source of the tile shader for the steps `alg`, from the shader file's
/// text `template`.
pub fn shader_source(template: &str, alg: &[FractalStep]) -> (s: String)
    ensures
        s@ == shader_wgsl(template@, alg@),
{
    proof {
        reveal_strlit("REAL");
        reveal_strlit("@IMPL@");
    }
    let source = replace_all(template, "REAL", "f32");
    let implementation = shader_impl(alg);
    replace_all(source.as_str(), "@IMPL@", implementation.as_str())
}

} // verus!
