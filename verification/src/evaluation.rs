//! What a command means: the unit of its result, the steps that compute its
//! value, and what it does to the variables.

use vstd::prelude::*;
use crate::error::{EvalError, EvalErrorView};
use crate::operator::Operator;
use crate::step::{push_step, step_views, Step, StepView};
use crate::syntax::{plain, Expr, ExprView};
use crate::tables::RelationKey;
use crate::unit_table::UnitTable;
use crate::variables::Variables;

verus! {

/// The name under which the result of the last command is kept.
pub open spec fn last_result() -> Seq<char> {
    "$"@
}

/// What evaluating an expression gives.
pub struct Outcome<F> {
    /// The steps that were reached, in order. After a failure they still
    /// hold the assignments that came before it.
    pub steps: Seq<StepView<F>>,
    /// The units of the variables afterwards.
    pub vars: Map<Seq<char>, Seq<char>>,
    /// The unit of the value, empty for a plain number, or the failure.
    pub result: Result<Seq<char>, EvalErrorView>,
}

/// The unit of `left operator right`.
///
/// A sum or a difference needs the same unit on both sides, and a plain
/// number is no exception. A product or a quotient of two plain numbers is a
/// plain number; with one plain number it keeps the unit of the other side;
/// with two units it is what the table of relations says.
pub open spec fn combine(
    derived: Map<RelationKey, Seq<char>>,
    operator: Operator,
    left: Seq<char>,
    right: Seq<char>,
) -> Result<Seq<char>, EvalErrorView> {
    if operator == Operator::Add || operator == Operator::Subtract {
        if left == right {
            Ok(right)
        } else {
            Err(EvalErrorView::IncompatibleUnits(left, operator, right))
        }
    } else if left.len() == 0 {
        Ok(right)
    } else if right.len() == 0 {
        Ok(left)
    } else if derived.contains_key((left, operator, right)) {
        Ok(derived[(left, operator, right)])
    } else {
        Err(EvalErrorView::IncompatibleUnits(left, operator, right))
    }
}

/// The meaning of an expression, given the two tables and the units of the
/// variables.
pub open spec fn eval<F>(
    base: Map<Seq<char>, (F, Seq<char>)>,
    derived: Map<RelationKey, Seq<char>>,
    vars: Map<Seq<char>, Seq<char>>,
    expr: ExprView,
) -> Outcome<F>
    decreases expr,
{
    match expr {
        ExprView::Num(digits, None) => Outcome {
            steps: seq![StepView::Literal(digits)],
            vars,
            result: Ok(Seq::empty()),
        },
        ExprView::Num(digits, Some(unit)) => if base.contains_key(unit) {
            Outcome {
                steps: seq![StepView::Literal(digits), StepView::Scale(base[unit].0)],
                vars,
                result: Ok(base[unit].1),
            }
        } else {
            Outcome { steps: Seq::empty(), vars, result: Err(EvalErrorView::UnknownUnit(unit)) }
        },
        ExprView::Var(name) => if vars.contains_key(name) {
            Outcome { steps: seq![StepView::Load(name)], vars, result: Ok(vars[name]) }
        } else {
            Outcome { steps: Seq::empty(), vars, result: Err(EvalErrorView::UnknownVariable(name)) }
        },
        ExprView::Neg(inner) => {
            let value = eval(base, derived, vars, *inner);
            match value.result {
                Ok(unit) => Outcome {
                    steps: value.steps.push(StepView::Negate),
                    vars: value.vars,
                    result: Ok(unit),
                },
                Err(_) => value,
            }
        },
        ExprView::Binary(operator, left, right) => {
            let first = eval(base, derived, vars, *left);
            match first.result {
                Err(_) => first,
                Ok(left_unit) => {
                    let second = eval(base, derived, first.vars, *right);
                    let steps = first.steps + second.steps;
                    match second.result {
                        Err(error) => Outcome { steps, vars: second.vars, result: Err(error) },
                        Ok(right_unit) => match combine(derived, operator, left_unit, right_unit) {
                            Ok(unit) => Outcome {
                                steps: steps.push(StepView::Apply(operator)),
                                vars: second.vars,
                                result: Ok(unit),
                            },
                            Err(error) => Outcome { steps, vars: second.vars, result: Err(error) },
                        },
                    }
                },
            }
        },
        ExprView::Assign { name, rhs } => if name == last_result() {
            Outcome {
                steps: Seq::empty(),
                vars,
                result: Err(EvalErrorView::ReservedVariableAssignment),
            }
        } else {
            let value = eval(base, derived, vars, *rhs);
            match value.result {
                Ok(unit) => Outcome {
                    steps: value.steps.push(StepView::Store(name)),
                    vars: value.vars.insert(name, unit),
                    result: Ok(unit),
                },
                Err(_) => value,
            }
        },
        ExprView::To(inner, None) => eval(base, derived, vars, *inner),
        ExprView::To(inner, Some(target)) => {
            let value = eval(base, derived, vars, *inner);
            match value.result {
                Err(_) => value,
                Ok(unit) => if !base.contains_key(target) {
                    Outcome {
                        steps: value.steps,
                        vars: value.vars,
                        result: Err(EvalErrorView::UnknownTargetUnit(target)),
                    }
                } else if base[target].1 != unit {
                    Outcome {
                        steps: value.steps,
                        vars: value.vars,
                        result: Err(EvalErrorView::UnconvertibleUnit(target)),
                    }
                } else {
                    Outcome {
                        steps: value.steps.push(StepView::Unscale(base[target].0)),
                        vars: value.vars,
                        result: Ok(target),
                    }
                },
            }
        },
    }
}

/// What the result of an evaluation holds.
pub open spec fn result_view(result: Result<String, EvalError>) -> Result<Seq<char>, EvalErrorView> {
    match result {
        Ok(unit) => Ok(unit@),
        Err(error) => Err(error@),
    }
}

/// The unit of `left operator right`.
pub fn combine_units<'a, F: Copy>(
    table: &UnitTable<'a, F>,
    operator: Operator,
    left: String,
    right: String,
) -> (result: Result<String, EvalError>)
    ensures
        result_view(result) == combine(table.derived_ops(), operator, left@, right@),
{
    match operator {
        Operator::Add | Operator::Subtract => {
            if left == right {
                Ok(right)
            } else {
                Err(EvalError::IncompatibleUnits(left, operator, right))
            }
        },
        _ => {
            if left.as_str().is_empty() {
                Ok(right)
            } else if right.as_str().is_empty() {
                Ok(left)
            } else {
                let found: Option<String> = match table.derived_units_map().lookup(
                    left.as_str(),
                    operator,
                    right.as_str(),
                ) {
                    Some(unit) => Some(unit.clone()),
                    None => None,
                };
                match found {
                    Some(unit) => Ok(unit),
                    None => Err(EvalError::IncompatibleUnits(left, operator, right)),
                }
            }
        },
    }
}

/// Evaluates an expression: appends its steps to `steps`, records its
/// assignments in `vars`, and returns the unit of its value.
pub fn eval_expr<'a, 'src, F: Copy>(
    table: &UnitTable<'a, F>,
    vars: &mut Variables,
    expr: &Expr<'src>,
    steps: &mut Vec<Step<F>>,
) -> (result: Result<String, EvalError>)
    ensures
        ({
            let outcome = eval(table.base_units(), table.derived_ops(), old(vars)@, expr@);
            &&& result_view(result) == outcome.result
            &&& final(vars)@ == outcome.vars
            &&& step_views(final(steps)@) == step_views(old(steps)@) + outcome.steps
        }),
    decreases expr,
{
    let ghost before = step_views(steps@);
    match expr {
        Expr::Num(digits, unit) => match unit {
            None => {
                push_step(steps, Step::Literal((*digits).to_owned()));
                proof {
                    assert(before.push(StepView::<F>::Literal(digits@)) =~= before
                        + seq![StepView::<F>::Literal(digits@)]);
                }
                Ok(String::new())
            },
            Some(symbol) => {
                let found: Option<(F, String)> = match table.base_units_map().get(symbol) {
                    Some(entry) => Some((entry.0, entry.1.clone())),
                    None => None,
                };
                match found {
                    Some(entry) => {
                        push_step(steps, Step::Literal((*digits).to_owned()));
                        push_step(steps, Step::Scale(entry.0));
                        proof {
                            assert(before.push(StepView::<F>::Literal(digits@)).push(
                                StepView::Scale(entry.0),
                            ) =~= before + seq![
                                StepView::<F>::Literal(digits@),
                                StepView::Scale(entry.0),
                            ]);
                        }
                        Ok(entry.1)
                    },
                    None => {
                        proof {
                            assert(before =~= before + Seq::<StepView<F>>::empty());
                        }
                        Err(EvalError::UnknownUnit((*symbol).to_owned()))
                    },
                }
            },
        },
        Expr::Var(name) => {
            let found: Option<String> = match vars.get(name) {
                Some(unit) => Some(unit.clone()),
                None => None,
            };
            match found {
                Some(unit) => {
                    push_step(steps, Step::Load((*name).to_owned()));
                    proof {
                        assert(before.push(StepView::<F>::Load(name@)) =~= before + seq![
                            StepView::<F>::Load(name@),
                        ]);
                    }
                    Ok(unit)
                },
                None => {
                    proof {
                        assert(before =~= before + Seq::<StepView<F>>::empty());
                    }
                    Err(EvalError::UnknownVariable((*name).to_owned()))
                },
            }
        },
        Expr::Neg(inner) => {
            let ghost value = eval(table.base_units(), table.derived_ops(), vars@, inner@);
            match eval_expr(table, vars, inner, steps) {
                Ok(unit) => {
                    push_step(steps, Step::Negate);
                    proof {
                        assert((before + value.steps).push(StepView::<F>::Negate) =~= before
                            + value.steps.push(StepView::Negate));
                    }
                    Ok(unit)
                },
                Err(error) => Err(error),
            }
        },
        Expr::Binary(operator, left, right) => {
            let ghost first = eval(table.base_units(), table.derived_ops(), vars@, left@);
            let left_unit = match eval_expr(table, vars, left, steps) {
                Ok(unit) => unit,
                Err(error) => {
                    return Err(error);
                },
            };
            let ghost second = eval(table.base_units(), table.derived_ops(), vars@, right@);
            proof {
                assert((before + first.steps) + second.steps =~= before + (first.steps
                    + second.steps));
            }
            let right_unit = match eval_expr(table, vars, right, steps) {
                Ok(unit) => unit,
                Err(error) => {
                    return Err(error);
                },
            };
            match combine_units(table, *operator, left_unit, right_unit) {
                Ok(unit) => {
                    push_step(steps, Step::Apply(*operator));
                    proof {
                        assert((before + (first.steps + second.steps)).push(
                            StepView::<F>::Apply(*operator),
                        ) =~= before + (first.steps + second.steps).push(
                            StepView::Apply(*operator),
                        ));
                    }
                    Ok(unit)
                },
                Err(error) => Err(error),
            }
        },
        Expr::Assign { name, rhs } => {
            if crate::text::same_text(name, "$") {
                proof {
                    assert(before =~= before + Seq::<StepView<F>>::empty());
                }
                return Err(EvalError::ReservedVariableAssignment);
            }
            let ghost value = eval(table.base_units(), table.derived_ops(), vars@, rhs@);
            match eval_expr(table, vars, rhs, steps) {
                Ok(unit) => {
                    push_step(steps, Step::Store((*name).to_owned()));
                    vars.set(name, unit.clone());
                    proof {
                        assert((before + value.steps).push(StepView::<F>::Store(name@)) =~= before
                            + value.steps.push(StepView::Store(name@)));
                    }
                    Ok(unit)
                },
                Err(error) => Err(error),
            }
        },
        Expr::To(inner, target) => {
            let ghost value = eval(table.base_units(), table.derived_ops(), vars@, inner@);
            let unit = match eval_expr(table, vars, inner, steps) {
                Ok(unit) => unit,
                Err(error) => {
                    return Err(error);
                },
            };
            match target {
                None => Ok(unit),
                Some(symbol) => {
                    let found: Option<(F, String)> = match table.base_units_map().get(symbol) {
                        Some(entry) => Some((entry.0, entry.1.clone())),
                        None => None,
                    };
                    match found {
                        None => Err(EvalError::UnknownTargetUnit((*symbol).to_owned())),
                        Some(entry) => {
                            if entry.1 != unit {
                                Err(EvalError::UnconvertibleUnit((*symbol).to_owned()))
                            } else {
                                push_step(steps, Step::Unscale(entry.0));
                                proof {
                                    assert((before + value.steps).push(
                                        StepView::<F>::Unscale(entry.0),
                                    ) =~= before + value.steps.push(StepView::Unscale(entry.0)));
                                }
                                Ok((*symbol).to_owned())
                            }
                        },
                    }
                },
            }
        },
    }
}

/// The expression holds an assignment to `name`.
pub open spec fn assigns(expr: ExprView, name: Seq<char>) -> bool
    decreases expr,
{
    match expr {
        ExprView::Num(_, _) => false,
        ExprView::Var(_) => false,
        ExprView::Neg(inner) => assigns(*inner, name),
        ExprView::Binary(_, left, right) => assigns(*left, name) || assigns(*right, name),
        ExprView::Assign { name: target, rhs } => target == name || assigns(*rhs, name),
        ExprView::To(inner, _) => assigns(*inner, name),
    }
}

/// An expression changes no variable that it does not assign, and never the
/// result of the last command; this holds whether it succeeds or fails.
pub proof fn lemma_eval_keeps<F>(
    base: Map<Seq<char>, (F, Seq<char>)>,
    derived: Map<RelationKey, Seq<char>>,
    vars: Map<Seq<char>, Seq<char>>,
    expr: ExprView,
    name: Seq<char>,
)
    requires
        !assigns(expr, name) || name == last_result(),
    ensures
        eval(base, derived, vars, expr).vars.contains_key(name) == vars.contains_key(name),
        vars.contains_key(name) ==> eval(base, derived, vars, expr).vars[name] == vars[name],
    decreases expr,
{
    match expr {
        ExprView::Num(_, _) => {},
        ExprView::Var(_) => {},
        ExprView::Neg(inner) => {
            lemma_eval_keeps(base, derived, vars, *inner, name);
        },
        ExprView::Binary(_, left, right) => {
            lemma_eval_keeps(base, derived, vars, *left, name);
            let first = eval(base, derived, vars, *left);
            lemma_eval_keeps(base, derived, first.vars, *right, name);
        },
        ExprView::Assign { name: target, rhs } => {
            if target != last_result() {
                lemma_eval_keeps(base, derived, vars, *rhs, name);
            }
        },
        ExprView::To(inner, _) => {
            lemma_eval_keeps(base, derived, vars, *inner, name);
        },
    }
}

/// An expression forgets no variable.
pub proof fn lemma_eval_forgets_nothing<F>(
    base: Map<Seq<char>, (F, Seq<char>)>,
    derived: Map<RelationKey, Seq<char>>,
    vars: Map<Seq<char>, Seq<char>>,
    expr: ExprView,
    name: Seq<char>,
)
    requires
        vars.contains_key(name),
    ensures
        eval(base, derived, vars, expr).vars.contains_key(name),
    decreases expr,
{
    match expr {
        ExprView::Num(_, _) => {},
        ExprView::Var(_) => {},
        ExprView::Neg(inner) => {
            lemma_eval_forgets_nothing(base, derived, vars, *inner, name);
        },
        ExprView::Binary(_, left, right) => {
            lemma_eval_forgets_nothing(base, derived, vars, *left, name);
            let first = eval(base, derived, vars, *left);
            lemma_eval_forgets_nothing(base, derived, first.vars, *right, name);
        },
        ExprView::Assign { name: target, rhs } => {
            if target != last_result() {
                lemma_eval_forgets_nothing(base, derived, vars, *rhs, name);
            }
        },
        ExprView::To(inner, _) => {
            lemma_eval_forgets_nothing(base, derived, vars, *inner, name);
        },
    }
}

/// A tree without assignment changes no variable, whether it has a value or
/// fails.
pub proof fn lemma_plain_changes_nothing<F>(
    base: Map<Seq<char>, (F, Seq<char>)>,
    derived: Map<RelationKey, Seq<char>>,
    vars: Map<Seq<char>, Seq<char>>,
    expr: ExprView,
)
    requires
        plain(expr),
    ensures
        eval(base, derived, vars, expr).vars == vars,
    decreases expr,
{
    match expr {
        ExprView::Neg(inner) => {
            lemma_plain_changes_nothing(base, derived, vars, *inner);
        },
        ExprView::Binary(_, left, right) => {
            lemma_plain_changes_nothing(base, derived, vars, *left);
            lemma_plain_changes_nothing(base, derived, vars, *right);
        },
        _ => {},
    }
}

} // verus!
