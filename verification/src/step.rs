//! The arithmetic that a command asks for, as steps for a stack of numbers.
//!
//! The library decides which units combine and which do not; it never
//! computes with the numbers themselves. What has to be computed it hands
//! out as a list of steps. Whoever runs them keeps a stack of numbers and the
//! values of the variables, and takes the steps in order.

use vstd::prelude::*;
use crate::operator::Operator;

verus! {

/// One step of the computation of a command.
#[derive(Debug, Clone)]
pub enum Step<F> {
    /// Push the number that these decimal digits write.
    Literal(String),
    /// Multiply the top of the stack by this factor.
    Scale(F),
    /// Divide the top of the stack by this factor.
    Unscale(F),
    /// Negate the top of the stack.
    Negate,
    /// Pop the right operand, then the left one, and push `left operator right`.
    Apply(Operator),
    /// Push the value of this variable.
    Load(String),
    /// Give this variable the value at the top of the stack, which stays there.
    Store(String),
}

/// A [`Step`] as the contracts see it.
pub enum StepView<F> {
    Literal(Seq<char>),
    Scale(F),
    Unscale(F),
    Negate,
    Apply(Operator),
    Load(Seq<char>),
    Store(Seq<char>),
}

impl<F> View for Step<F> {
    type V = StepView<F>;

    open spec fn view(&self) -> StepView<F> {
        match self {
            Step::Literal(digits) => StepView::Literal(digits@),
            Step::Scale(factor) => StepView::Scale(*factor),
            Step::Unscale(factor) => StepView::Unscale(*factor),
            Step::Negate => StepView::Negate,
            Step::Apply(operator) => StepView::Apply(*operator),
            Step::Load(name) => StepView::Load(name@),
            Step::Store(name) => StepView::Store(name@),
        }
    }
}

/// What a list of steps holds.
pub open spec fn step_views<F>(steps: Seq<Step<F>>) -> Seq<StepView<F>> {
    Seq::new(steps.len(), |i: int| steps[i]@)
}

/// Adds a step at the end of a list.
pub fn push_step<F>(steps: &mut Vec<Step<F>>, step: Step<F>)
    ensures
        step_views(final(steps)@) == step_views(old(steps)@).push(step@),
{
    proof {
        assert(step_views(steps@.push(step)) =~= step_views(steps@).push(step@));
    }
    steps.push(step);
}

} // verus!
