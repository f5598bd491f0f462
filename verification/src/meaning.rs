//! What the steps of a command compute.
//!
//! The library never computes with numbers, so it is stated here for every
//! arithmetic at once: whatever the numbers are, and whatever multiplying,
//! dividing, negating and combining them gives, taking the steps of an
//! expression in order leaves the value of the expression at the top of the
//! stack, and the variables hold what the expression assigned.

use vstd::prelude::*;
use crate::error::EvalErrorView;
use vstd::utf8::encode_utf8;
use crate::evaluation::{combine, eval, last_result};
use crate::interpretor::{execute, parse_failure, ErrorView};
use crate::syntax::parse;
use crate::operator::Operator;
use crate::step::StepView;
use crate::syntax::ExprView;
use crate::tables::RelationKey;

verus! {

/// An arithmetic on numbers `N` with factors `F`.
#[verifier::reject_recursive_types(N)]
#[verifier::reject_recursive_types(F)]
pub struct Arithmetic<N, F> {
    /// The number that decimal digits write.
    pub literal: spec_fn(Seq<char>) -> N,
    /// A number multiplied by a factor.
    pub times: spec_fn(N, F) -> N,
    /// A number divided by a factor.
    pub over: spec_fn(N, F) -> N,
    /// A number negated.
    pub negate: spec_fn(N) -> N,
    /// `left operator right`.
    pub apply: spec_fn(Operator, N, N) -> N,
}

/// The stack and the values of the variables.
pub struct Machine<N> {
    pub stack: Seq<N>,
    pub values: Map<Seq<char>, N>,
}

/// The machine after one step.
pub open spec fn take_step<N, F>(numbers: Arithmetic<N, F>, machine: Machine<N>, step: StepView<F>) -> Machine<
    N,
> {
    let stack = machine.stack;
    match step {
        StepView::Literal(digits) => Machine { stack: stack.push((numbers.literal)(digits)), ..machine },
        StepView::Scale(factor) => Machine {
            stack: stack.drop_last().push((numbers.times)(stack.last(), factor)),
            ..machine
        },
        StepView::Unscale(factor) => Machine {
            stack: stack.drop_last().push((numbers.over)(stack.last(), factor)),
            ..machine
        },
        StepView::Negate => Machine {
            stack: stack.drop_last().push((numbers.negate)(stack.last())),
            ..machine
        },
        StepView::Apply(operator) => Machine {
            stack: stack.take(stack.len() - 2).push(
                (numbers.apply)(operator, stack[stack.len() - 2], stack.last()),
            ),
            ..machine
        },
        StepView::Load(name) => Machine { stack: stack.push(machine.values[name]), ..machine },
        StepView::Store(name) => Machine { values: machine.values.insert(name, stack.last()), ..machine },
    }
}

/// The machine after the steps, taken in order.
pub open spec fn take_steps<N, F>(
    numbers: Arithmetic<N, F>,
    machine: Machine<N>,
    steps: Seq<StepView<F>>,
) -> Machine<N>
    decreases steps.len(),
{
    if steps.len() == 0 {
        machine
    } else {
        take_step(numbers, take_steps(numbers, machine, steps.drop_last()), steps.last())
    }
}

/// A number with its unit; the empty unit is that of a plain number.
pub type Quantity<N> = (N, Seq<char>);

/// What an expression means: the variables afterwards, and its value with
/// its unit, or the failure.
pub struct Meaning<N> {
    pub env: Map<Seq<char>, Quantity<N>>,
    pub result: Result<Quantity<N>, EvalErrorView>,
}

/// The meaning of an expression, given the two tables and the variables.
///
/// - A number without unit is that number, a plain one. A number with a unit
///   is the number times the factor of the unit, in the base unit of the unit.
/// - A variable is what it holds.
/// - A negation negates the value and keeps the unit.
/// - An operator combines the values of its operands, the left one first, if
///   their units combine.
/// - An assignment gives the variable the value and the unit of its right
///   side, and is that value; `$` cannot be assigned.
/// - A conversion divides the value by the factor of the unit asked for,
///   which must have the unit of the value as its base unit, and gives it
///   the unit asked for.
pub open spec fn meaning<N, F>(
    numbers: Arithmetic<N, F>,
    base: Map<Seq<char>, (F, Seq<char>)>,
    derived: Map<RelationKey, Seq<char>>,
    env: Map<Seq<char>, Quantity<N>>,
    expr: ExprView,
) -> Meaning<N>
    decreases expr,
{
    match expr {
        ExprView::Num(digits, None) => Meaning {
            env,
            result: Ok(((numbers.literal)(digits), Seq::empty())),
        },
        ExprView::Num(digits, Some(unit)) => if base.contains_key(unit) {
            Meaning {
                env,
                result: Ok(((numbers.times)((numbers.literal)(digits), base[unit].0), base[unit].1)),
            }
        } else {
            Meaning { env, result: Err(EvalErrorView::UnknownUnit(unit)) }
        },
        ExprView::Var(name) => if env.contains_key(name) {
            Meaning { env, result: Ok(env[name]) }
        } else {
            Meaning { env, result: Err(EvalErrorView::UnknownVariable(name)) }
        },
        ExprView::Neg(inner) => {
            let value = meaning(numbers, base, derived, env, *inner);
            match value.result {
                Ok(quantity) => Meaning {
                    env: value.env,
                    result: Ok(((numbers.negate)(quantity.0), quantity.1)),
                },
                Err(_) => value,
            }
        },
        ExprView::Binary(operator, left, right) => {
            let first = meaning(numbers, base, derived, env, *left);
            match first.result {
                Err(_) => first,
                Ok(l) => {
                    let second = meaning(numbers, base, derived, first.env, *right);
                    match second.result {
                        Err(_) => second,
                        Ok(r) => match combine(derived, operator, l.1, r.1) {
                            Ok(unit) => Meaning {
                                env: second.env,
                                result: Ok(((numbers.apply)(operator, l.0, r.0), unit)),
                            },
                            Err(error) => Meaning { env: second.env, result: Err(error) },
                        },
                    }
                },
            }
        },
        ExprView::Assign { name, rhs } => if name == last_result() {
            Meaning { env, result: Err(EvalErrorView::ReservedVariableAssignment) }
        } else {
            let value = meaning(numbers, base, derived, env, *rhs);
            match value.result {
                Ok(quantity) => Meaning { env: value.env.insert(name, quantity), result: Ok(quantity) },
                Err(_) => value,
            }
        },
        ExprView::To(inner, None) => meaning(numbers, base, derived, env, *inner),
        ExprView::To(inner, Some(target)) => {
            let value = meaning(numbers, base, derived, env, *inner);
            match value.result {
                Err(_) => value,
                Ok(quantity) => if !base.contains_key(target) {
                    Meaning { env: value.env, result: Err(EvalErrorView::UnknownTargetUnit(target)) }
                } else if base[target].1 != quantity.1 {
                    Meaning { env: value.env, result: Err(EvalErrorView::UnconvertibleUnit(target)) }
                } else {
                    Meaning {
                        env: value.env,
                        result: Ok(((numbers.over)(quantity.0, base[target].0), target)),
                    }
                },
            }
        },
    }
}

/// The units of the variables.
pub open spec fn units_of<N>(env: Map<Seq<char>, Quantity<N>>) -> Map<Seq<char>, Seq<char>> {
    Map::new(|name: Seq<char>| env.contains_key(name), |name: Seq<char>| env[name].1)
}

/// The values of the variables.
pub open spec fn values_of<N>(env: Map<Seq<char>, Quantity<N>>) -> Map<Seq<char>, N> {
    Map::new(|name: Seq<char>| env.contains_key(name), |name: Seq<char>| env[name].0)
}

/// The unit of a result, or its failure.
pub open spec fn unit_of<N>(result: Result<Quantity<N>, EvalErrorView>) -> Result<
    Seq<char>,
    EvalErrorView,
> {
    match result {
        Ok(quantity) => Ok(quantity.1),
        Err(error) => Err(error),
    }
}

pub proof fn lemma_env_insert<N>(env: Map<Seq<char>, Quantity<N>>, name: Seq<char>, quantity: Quantity<N>)
    ensures
        units_of(env.insert(name, quantity)) == units_of(env).insert(name, quantity.1),
        values_of(env.insert(name, quantity)) == values_of(env).insert(name, quantity.0),
{
    assert(units_of(env.insert(name, quantity)) =~= units_of(env).insert(name, quantity.1));
    assert(values_of(env.insert(name, quantity)) =~= values_of(env).insert(name, quantity.0));
}

/// Steps taken one list after another are the steps of the joined list.
pub proof fn lemma_take_steps_joined<N, F>(
    numbers: Arithmetic<N, F>,
    machine: Machine<N>,
    first: Seq<StepView<F>>,
    second: Seq<StepView<F>>,
)
    ensures
        take_steps(numbers, machine, first + second) == take_steps(
            numbers,
            take_steps(numbers, machine, first),
            second,
        ),
    decreases second.len(),
{
    if second.len() == 0 {
        assert(first + second =~= first);
    } else {
        lemma_take_steps_joined(numbers, machine, first, second.drop_last());
        assert((first + second).drop_last() =~= first + second.drop_last());
        assert((first + second).last() == second.last());
    }
}

pub proof fn lemma_take_one_more<N, F>(
    numbers: Arithmetic<N, F>,
    machine: Machine<N>,
    steps: Seq<StepView<F>>,
    step: StepView<F>,
)
    ensures
        take_steps(numbers, machine, steps.push(step)) == take_step(
            numbers,
            take_steps(numbers, machine, steps),
            step,
        ),
{
    assert(steps.push(step).drop_last() =~= steps);
}

/// The steps of an expression compute its meaning.
///
/// Where the machine holds the values of the variables, taking the steps that
/// evaluation gives for an expression leaves the machine with the values of
/// the variables that the meaning of the expression gives; the units agree
/// as well, and so does the failure. Where the expression has a value, the
/// stack is as before with that value on top.
pub proof fn lemma_steps_compute_meaning<N, F>(
    numbers: Arithmetic<N, F>,
    base: Map<Seq<char>, (F, Seq<char>)>,
    derived: Map<RelationKey, Seq<char>>,
    env: Map<Seq<char>, Quantity<N>>,
    stack: Seq<N>,
    expr: ExprView,
)
    ensures
        ({
            let outcome = eval(base, derived, units_of(env), expr);
            let meant = meaning(numbers, base, derived, env, expr);
            let machine = take_steps(
                numbers,
                Machine { stack, values: values_of(env) },
                outcome.steps,
            );
            &&& outcome.result == unit_of(meant.result)
            &&& outcome.vars == units_of(meant.env)
            &&& machine.values == values_of(meant.env)
            &&& meant.result is Ok ==> machine.stack == stack.push(meant.result->Ok_0.0)
        }),
    decreases expr,
{
    let start = Machine { stack, values: values_of(env) };
    let outcome = eval(base, derived, units_of(env), expr);
    let meant = meaning(numbers, base, derived, env, expr);
    match expr {
        ExprView::Num(digits, None) => {
            reveal_with_fuel(take_steps, 2);
            assert(outcome.steps.drop_last() =~= Seq::empty());
        },
        ExprView::Num(digits, Some(unit)) => {
            if base.contains_key(unit) {
                let one = seq![StepView::<F>::Literal(digits)];
                assert(outcome.steps =~= one.push(StepView::Scale(base[unit].0)));
                lemma_take_one_more(numbers, start, one, StepView::Scale(base[unit].0));
                lemma_take_one_more(numbers, start, Seq::empty(), StepView::<F>::Literal(digits));
                assert(one =~= Seq::<StepView<F>>::empty().push(StepView::Literal(digits)));
                let after = take_steps(numbers, start, one);
                assert(after.stack == stack.push((numbers.literal)(digits)));
                assert(after.stack.drop_last() =~= stack);
            }
        },
        ExprView::Var(name) => {
            if env.contains_key(name) {
                lemma_take_one_more(numbers, start, Seq::empty(), StepView::<F>::Load(name));
                assert(outcome.steps =~= Seq::<StepView<F>>::empty().push(StepView::Load(name)));
            }
        },
        ExprView::Neg(inner) => {
            lemma_steps_compute_meaning(numbers, base, derived, env, stack, *inner);
            let value = eval(base, derived, units_of(env), *inner);
            if value.result is Ok {
                lemma_take_one_more(numbers, start, value.steps, StepView::<F>::Negate);
                let after = take_steps(numbers, start, value.steps);
                assert(after.stack.drop_last() =~= stack);
            }
        },
        ExprView::Binary(operator, left, right) => {
            lemma_steps_compute_meaning(numbers, base, derived, env, stack, *left);
            let first = eval(base, derived, units_of(env), *left);
            let first_meant = meaning(numbers, base, derived, env, *left);
            if first.result is Ok {
                let l = first_meant.result->Ok_0;
                let middle = take_steps(numbers, start, first.steps);
                lemma_steps_compute_meaning(
                    numbers,
                    base,
                    derived,
                    first_meant.env,
                    stack.push(l.0),
                    *right,
                );
                let second = eval(base, derived, first.vars, *right);
                let second_meant = meaning(numbers, base, derived, first_meant.env, *right);
                lemma_take_steps_joined(numbers, start, first.steps, second.steps);
                assert(middle == Machine { stack: stack.push(l.0), values: values_of(first_meant.env) });
                if second.result is Ok {
                    let r = second_meant.result->Ok_0;
                    let both = first.steps + second.steps;
                    let after = take_steps(numbers, start, both);
                    assert(after.stack == stack.push(l.0).push(r.0));
                    if combine(derived, operator, l.1, r.1) is Ok {
                        lemma_take_one_more(numbers, start, both, StepView::<F>::Apply(operator));
                        assert(after.stack.take(after.stack.len() - 2) =~= stack);
                    }
                }
            }
        },
        ExprView::Assign { name, rhs } => {
            if name != last_result() {
                lemma_steps_compute_meaning(numbers, base, derived, env, stack, *rhs);
                let value = eval(base, derived, units_of(env), *rhs);
                let value_meant = meaning(numbers, base, derived, env, *rhs);
                if value.result is Ok {
                    lemma_take_one_more(numbers, start, value.steps, StepView::<F>::Store(name));
                    lemma_env_insert(value_meant.env, name, value_meant.result->Ok_0);
                }
            }
        },
        ExprView::To(inner, None) => {
            lemma_steps_compute_meaning(numbers, base, derived, env, stack, *inner);
        },
        ExprView::To(inner, Some(target)) => {
            lemma_steps_compute_meaning(numbers, base, derived, env, stack, *inner);
            let value = eval(base, derived, units_of(env), *inner);
            if value.result is Ok && base.contains_key(target) && base[target].1
                == value.result->Ok_0 {
                lemma_take_one_more(numbers, start, value.steps, StepView::<F>::Unscale(base[target].0));
                let after = take_steps(numbers, start, value.steps);
                assert(after.stack.drop_last() =~= stack);
            }
        },
    }
}

/// What a command means: the variables afterwards, and its value with its
/// unit, or the failures.
pub struct Answer<N> {
    pub env: Map<Seq<char>, Quantity<N>>,
    pub result: Result<Quantity<N>, Seq<ErrorView>>,
}

/// The meaning of a command.
///
/// A command that cannot be read changes nothing. One that fails leaves the
/// variables as its evaluation left them, and is reported for the whole
/// command. One that succeeds gives `$` its value and unit.
pub open spec fn answer<N, F>(
    numbers: Arithmetic<N, F>,
    base: Map<Seq<char>, (F, Seq<char>)>,
    derived: Map<RelationKey, Seq<char>>,
    env: Map<Seq<char>, Quantity<N>>,
    command: Seq<char>,
) -> Answer<N> {
    let s = encode_utf8(command);
    match parse(s) {
        Err(at) => Answer { env, result: Err(seq![parse_failure(s, at)]) },
        Ok(expr) => {
            let meant = meaning(numbers, base, derived, env, expr);
            match meant.result {
                Ok(quantity) => Answer {
                    env: meant.env.insert(last_result(), quantity),
                    result: Ok(quantity),
                },
                Err(error) => Answer {
                    env: meant.env,
                    result: Err(seq![(0, s.len() as int, error.text())]),
                },
            }
        },
    }
}

/// The unit of an answer, or its failures.
pub open spec fn answer_unit<N>(result: Result<Quantity<N>, Seq<ErrorView>>) -> Result<
    Seq<char>,
    Seq<ErrorView>,
> {
    match result {
        Ok(quantity) => Ok(quantity.1),
        Err(errors) => Err(errors),
    }
}

/// The steps of a command compute its answer.
///
/// Where the machine holds the values of the variables and an empty stack,
/// taking the steps that a command asks for leaves the machine with the
/// values that the answer gives to the variables; units and failures agree.
/// Where the command succeeds, its value is all that the stack holds.
pub proof fn lemma_steps_compute_answer<N, F>(
    numbers: Arithmetic<N, F>,
    base: Map<Seq<char>, (F, Seq<char>)>,
    derived: Map<RelationKey, Seq<char>>,
    env: Map<Seq<char>, Quantity<N>>,
    command: Seq<char>,
)
    ensures
        ({
            let done = execute(base, derived, units_of(env), command);
            let answered = answer(numbers, base, derived, env, command);
            let machine = take_steps(
                numbers,
                Machine { stack: Seq::empty(), values: values_of(env) },
                done.steps,
            );
            &&& done.result == answer_unit(answered.result)
            &&& done.vars == units_of(answered.env)
            &&& machine.values == values_of(answered.env)
            &&& answered.result is Ok ==> machine.stack == seq![answered.result->Ok_0.0]
        }),
{
    let s = encode_utf8(command);
    let start = Machine { stack: Seq::<N>::empty(), values: values_of(env) };
    match parse(s) {
        Err(_) => {},
        Ok(expr) => {
            lemma_steps_compute_meaning(numbers, base, derived, env, Seq::empty(), expr);
            let outcome = eval(base, derived, units_of(env), expr);
            let meant = meaning(numbers, base, derived, env, expr);
            if meant.result is Ok {
                let quantity = meant.result->Ok_0;
                lemma_take_one_more(
                    numbers,
                    start,
                    outcome.steps,
                    StepView::<F>::Store(last_result()),
                );
                lemma_env_insert(meant.env, last_result(), quantity);
                assert(Seq::<N>::empty().push(quantity.0) =~= seq![quantity.0]);
            }
        },
    }
}

/// What a command has assigned, a later command finds: after a command
/// `name = ...` that succeeds, a command that is the name alone gives the
/// same number with the same unit, and changes nothing else.
pub proof fn lemma_variable_holds_what_was_assigned<N, F>(
    numbers: Arithmetic<N, F>,
    base: Map<Seq<char>, (F, Seq<char>)>,
    derived: Map<RelationKey, Seq<char>>,
    env: Map<Seq<char>, Quantity<N>>,
    assignment: Seq<char>,
    reference: Seq<char>,
    name: Seq<char>,
)
    requires
        parse(encode_utf8(assignment)) is Ok,
        parse(encode_utf8(assignment))->Ok_0 is Assign,
        parse(encode_utf8(assignment))->Ok_0->name == name,
        answer(numbers, base, derived, env, assignment).result is Ok,
        parse(encode_utf8(reference)) == Ok::<_, int>(
            ExprView::To(Box::new(ExprView::Var(name)), None),
        ),
    ensures
        ({
            let first = answer(numbers, base, derived, env, assignment);
            let second = answer(numbers, base, derived, first.env, reference);
            &&& first.env.contains_key(name)
            &&& first.env[name] == first.result->Ok_0
            &&& second.result == first.result
            &&& second.env == first.env
        }),
{
    let first = answer(numbers, base, derived, env, assignment);
    let second = answer(numbers, base, derived, first.env, reference);
    assert(name != last_result());
    reveal_with_fuel(meaning, 2);
    assert(second.env =~= first.env);
}

/// After every command that succeeds, `$` holds its value and unit.
pub proof fn lemma_last_result_holds_the_answer<N, F>(
    numbers: Arithmetic<N, F>,
    base: Map<Seq<char>, (F, Seq<char>)>,
    derived: Map<RelationKey, Seq<char>>,
    env: Map<Seq<char>, Quantity<N>>,
    command: Seq<char>,
)
    requires
        answer(numbers, base, derived, env, command).result is Ok,
    ensures
        ({
            let answered = answer(numbers, base, derived, env, command);
            &&& answered.env.contains_key(last_result())
            &&& answered.env[last_result()] == answered.result->Ok_0
        }),
{
}

/// A number with a unit, assigned to a variable, is the number times the
/// factor of the unit, in the base unit of the unit.
pub proof fn lemma_assigned_literal<N, F>(
    numbers: Arithmetic<N, F>,
    base: Map<Seq<char>, (F, Seq<char>)>,
    derived: Map<RelationKey, Seq<char>>,
    env: Map<Seq<char>, Quantity<N>>,
    name: Seq<char>,
    digits: Seq<char>,
    unit: Seq<char>,
)
    requires
        name != last_result(),
        base.contains_key(unit),
    ensures
        ({
            let quantity = ((numbers.times)((numbers.literal)(digits), base[unit].0), base[unit].1);
            meaning(
                numbers,
                base,
                derived,
                env,
                ExprView::Assign {
                    name,
                    rhs: Box::new(ExprView::Num(digits, Some(unit))),
                },
            ) == (Meaning { env: env.insert(name, quantity), result: Ok(quantity) })
        }),
{
    reveal_with_fuel(meaning, 2);
}

/// A number written with a unit and converted to that same unit is the
/// number times the factor of the unit, divided by that factor again; so in
/// an arithmetic where dividing by a factor undoes multiplying by it, the
/// conversion gives the number as it was written.
pub proof fn lemma_conversion_to_the_written_unit<N, F>(
    numbers: Arithmetic<N, F>,
    base: Map<Seq<char>, (F, Seq<char>)>,
    derived: Map<RelationKey, Seq<char>>,
    env: Map<Seq<char>, Quantity<N>>,
    digits: Seq<char>,
    unit: Seq<char>,
)
    requires
        base.contains_key(unit),
    ensures
        ({
            let written = (numbers.literal)(digits);
            let factor = base[unit].0;
            let meant = meaning(
                numbers,
                base,
                derived,
                env,
                ExprView::To(Box::new(ExprView::Num(digits, Some(unit))), Some(unit)),
            );
            &&& meant.env == env
            &&& meant.result == Ok::<_, EvalErrorView>(
                ((numbers.over)((numbers.times)(written, factor), factor), unit),
            )
            &&& (numbers.over)((numbers.times)(written, factor), factor) == written
                ==> meant.result == Ok::<_, EvalErrorView>((written, unit))
        }),
{
    reveal_with_fuel(meaning, 2);
}

} // verus!
