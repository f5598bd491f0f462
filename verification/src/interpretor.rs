//! A session: a unit table and the variables that the commands have set.

use std::ops::Range;
use vstd::prelude::*;
use vstd::string::StringExecFns;
use vstd::string::StringSliceAdditionalSpecFns;
use vstd::string::StrSliceExecFns;
use vstd::utf8::{encode_utf8, encode_utf8_valid_utf8};
use crate::definitions::{declared, UnitDefinitions};
use crate::derivation::derived_ops_of;
use crate::error::{DefinitionError, DefinitionErrorView, EvalErrorView};
use crate::evaluation::{eval, eval_expr, last_result, lemma_plain_changes_nothing};
use crate::parser::parse_command;
use crate::step::{push_step, step_views, Step, StepView};
use crate::syntax::{lemma_parse_position, parse, ExprView};
use crate::tables::RelationKey;
use crate::text::{append_decimal, boundary, decimal, lemma_boundary_next, quote_char, quoted_char, scalar_width, slice, text_between};
use crate::unit_table::{base_units_of, rejection, UnitTable};
use crate::variables::Variables;

verus! {

/// A failure of a command: the bytes of the command that it is about, and a
/// sentence.
pub type Error = (Range<usize>, String);

/// A failure of a command as the contracts see it: start and end of the
/// bytes that it is about, and the sentence.
pub type ErrorView = (int, int, Seq<char>);

/// What the command asks to compute, and how it ended.
#[derive(Debug)]
pub struct Execution<F> {
    /// The steps to take, in order. They are to be taken also where the
    /// command failed: they change no variable then.
    pub steps: Vec<Step<F>>,
    /// The unit of the result, whose value the steps leave at the top of the
    /// stack; or the failures.
    pub result: Result<String, Vec<Error>>,
}

/// An [`Execution`] as the contracts see it, with the units of the variables
/// after the command.
pub struct ExecutionView<F> {
    pub steps: Seq<StepView<F>>,
    pub vars: Map<Seq<char>, Seq<char>>,
    pub result: Result<Seq<char>, Seq<ErrorView>>,
}

/// The sentence on a character that fits nowhere, from the character as it
/// is to be written and the bytes that it takes.
pub open spec fn unexpected_text(found: Seq<char>, from: nat, to: nat) -> Seq<char> {
    "found '"@ + found + "' at "@ + decimal(from) + ".."@ + decimal(to)
}

/// The sentence on a character that fits nowhere, from the character as it
/// is to be written and the bytes that it takes.
pub fn unexpected_sentence(found: &str, from: usize, to: usize) -> (sentence: String)
    ensures
        sentence@ == unexpected_text(found@, from as nat, to as nat),
{
    let mut sentence = String::from_str("found '");
    sentence.append(found);
    sentence.append("' at ");
    append_decimal(&mut sentence, from);
    sentence.append("..");
    append_decimal(&mut sentence, to);
    sentence
}

/// The failure of a command that cannot be read further than byte `at`:
/// it is about the character that starts there, written as `{:?}` writes a
/// character and put between quotes once more, or about the end.
pub open spec fn parse_failure(s: Seq<u8>, at: int) -> ErrorView {
    if 0 <= at < s.len() {
        let end = at + scalar_width(s[at]);
        (at, end, unexpected_text(quoted_char(text_between(s, at, end)[0]), at as nat, end as nat))
    } else {
        (
            s.len() as int,
            s.len() as int,
            "found end of input at "@ + decimal(s.len()) + ".."@ + decimal(s.len()),
        )
    }
}

/// What a command does.
///
/// A command that cannot be read changes nothing. One that fails leaves
/// the variables as its evaluation left them, which is as they were: a
/// command has its assignment at the top (`lemma_what_a_command_changes`).
/// One that succeeds stores its result under `$`.
pub open spec fn execute<F>(
    base: Map<Seq<char>, (F, Seq<char>)>,
    derived: Map<RelationKey, Seq<char>>,
    vars: Map<Seq<char>, Seq<char>>,
    command: Seq<char>,
) -> ExecutionView<F> {
    let s = encode_utf8(command);
    match parse(s) {
        Err(at) => ExecutionView {
            steps: Seq::empty(),
            vars,
            result: Err(seq![parse_failure(s, at)]),
        },
        Ok(expr) => {
            let outcome = eval(base, derived, vars, expr);
            match outcome.result {
                Ok(unit) => ExecutionView {
                    steps: outcome.steps.push(StepView::Store(last_result())),
                    vars: outcome.vars.insert(last_result(), unit),
                    result: Ok(unit),
                },
                Err(error) => ExecutionView {
                    steps: outcome.steps,
                    vars: outcome.vars,
                    result: Err(seq![(0, s.len() as int, error.text())]),
                },
            }
        },
    }
}

pub open spec fn error_view(error: Error) -> ErrorView {
    (error.0.start as int, error.0.end as int, error.1@)
}

pub open spec fn error_views(errors: Seq<Error>) -> Seq<ErrorView> {
    Seq::new(errors.len(), |i: int| error_view(errors[i]))
}

/// What the result of a command holds.
pub open spec fn outcome_view(result: Result<String, Vec<Error>>) -> Result<
    Seq<char>,
    Seq<ErrorView>,
> {
    match result {
        Ok(unit) => Ok(unit@),
        Err(errors) => Err(error_views(errors@)),
    }
}

/// Says where and at what a command could not be read further.
pub fn describe_parse_failure(command: &str, at: usize) -> (error: Error)
    requires
        at <= command.spec_bytes().len(),
        boundary(command.spec_bytes(), at as int),
    ensures
        error_view(error) == parse_failure(command.spec_bytes(), at as int),
{
    let bytes = command.as_bytes();
    let ghost s = command.spec_bytes();
    let n: usize = bytes.len();
    if at < n {
        let b = bytes[at];
        let width: usize = if b < 0x80 {
            1
        } else if b < 0xE0 {
            2
        } else if b < 0xF0 {
            3
        } else {
            4
        };
        proof {
            encode_utf8_valid_utf8(command@);
            lemma_boundary_next(s, at as int);
        }
        let end: usize = at + width;
        let found = slice(command, at, end);
        proof {
            if found@.len() == 0 {
                assert(encode_utf8(found@) =~= Seq::<u8>::empty());
            }
        }
        let written = quote_char(found.get_char(0));
        (at..end, unexpected_sentence(written.as_str(), at, end))
    } else {
        let mut sentence = String::from_str("found end of input at ");
        append_decimal(&mut sentence, n);
        sentence.append("..");
        append_decimal(&mut sentence, n);
        (n..n, sentence)
    }
}

/// A session of commands over one set of unit definitions.
#[derive(Debug)]
pub struct Interpretor<'a, F> {
    unit_table: UnitTable<'a, F>,
    vars: Variables,
}

impl<'a, F: Copy> Interpretor<'a, F> {
    /// Unit key to factor and base unit key.
    pub closed spec fn base_units(&self) -> Map<Seq<char>, (F, Seq<char>)> {
        self.unit_table.base_units()
    }

    /// Left unit, operator and right unit to the unit of the result.
    pub closed spec fn derived_ops(&self) -> Map<RelationKey, Seq<char>> {
        self.unit_table.derived_ops()
    }

    /// The units of the variables that have a value; the empty unit is that
    /// of a plain number.
    pub closed spec fn variables(&self) -> Map<Seq<char>, Seq<char>> {
        self.vars@
    }

    /// Starts a session without variables, or says why the definitions are
    /// refused.
    pub fn new(unit_definitions: &'a UnitDefinitions<F>) -> (outcome: Result<Self, DefinitionError>)
        ensures
            match outcome {
                Ok(session) => {
                    &&& rejection(unit_definitions@) is None
                    &&& session.base_units() == base_units_of(declared(unit_definitions@))
                    &&& derived_ops_of(declared(unit_definitions@)) == Ok::<
                        _,
                        DefinitionErrorView,
                    >(session.derived_ops())
                    &&& session.variables() == Map::<Seq<char>, Seq<char>>::empty()
                },
                Err(error) => rejection(unit_definitions@) == Some(error@),
            },
    {
        match UnitTable::new(unit_definitions) {
            Ok(unit_table) => Ok(Interpretor { unit_table, vars: Variables::new() }),
            Err(error) => Err(error),
        }
    }

    /// Reads and evaluates one command.
    pub fn execute_command(&mut self, command: &str) -> (execution: Execution<F>)
        ensures
            final(self).base_units() == old(self).base_units(),
            final(self).derived_ops() == old(self).derived_ops(),
            ({
                let expected = execute(
                    old(self).base_units(),
                    old(self).derived_ops(),
                    old(self).variables(),
                    command@,
                );
                &&& step_views(execution.steps@) == expected.steps
                &&& final(self).variables() == expected.vars
                &&& outcome_view(execution.result) == expected.result
            }),
    {
        let mut steps: Vec<Step<F>> = Vec::new();
        proof {
            assert(step_views(steps@) =~= Seq::empty());
        }
        let expr = match parse_command(command) {
            Ok(expr) => expr,
            Err(at) => {
                let error = describe_parse_failure(command, at);
                let mut errors: Vec<Error> = Vec::new();
                errors.push(error);
                proof {
                    assert(error_views(errors@) =~= seq![error_view(error)]);
                }
                return Execution { steps, result: Err(errors) };
            },
        };
        let ghost outcome = eval(self.base_units(), self.derived_ops(), self.variables(), expr@);
        match eval_expr(&self.unit_table, &mut self.vars, &expr, &mut steps) {
            Ok(unit) => {
                push_step(&mut steps, Step::Store(String::from_str("$")));
                self.vars.set("$", unit.clone());
                proof {
                    assert(Seq::<StepView<F>>::empty() + outcome.steps =~= outcome.steps);
                }
                Execution { steps, result: Ok(unit) }
            },
            Err(error) => {
                let failure: Error = (0..command.as_bytes().len(), error.message());
                let mut errors: Vec<Error> = Vec::new();
                errors.push(failure);
                proof {
                    assert(Seq::<StepView<F>>::empty() + outcome.steps =~= outcome.steps);
                    assert(error_views(errors@) =~= seq![error_view(failure)]);
                }
                Execution { steps, result: Err(errors) }
            },
        }
    }
}

/// After every command that succeeds, `$` holds the unit of its result, and
/// the last step stores its value there.
pub proof fn lemma_last_result_follows<F>(
    base: Map<Seq<char>, (F, Seq<char>)>,
    derived: Map<RelationKey, Seq<char>>,
    vars: Map<Seq<char>, Seq<char>>,
    command: Seq<char>,
)
    requires
        execute(base, derived, vars, command).result is Ok,
    ensures
        ({
            let done = execute(base, derived, vars, command);
            &&& done.vars.contains_key(last_result())
            &&& done.vars[last_result()] == done.result->Ok_0
            &&& done.steps.len() > 0
            &&& done.steps.last() == StepView::<F>::Store(last_result())
        }),
{
}

/// A command that assigns to `$` fails: it changes no variable and asks for
/// no step.
pub proof fn lemma_last_result_is_reserved<F>(
    base: Map<Seq<char>, (F, Seq<char>)>,
    derived: Map<RelationKey, Seq<char>>,
    vars: Map<Seq<char>, Seq<char>>,
    command: Seq<char>,
)
    requires
        parse(encode_utf8(command)) is Ok,
        parse(encode_utf8(command))->Ok_0 is Assign,
        parse(encode_utf8(command))->Ok_0->name == last_result(),
    ensures
        ({
            let done = execute(base, derived, vars, command);
            &&& done.result == Err::<Seq<char>, _>(
                seq![
                    (
                        0int,
                        encode_utf8(command).len() as int,
                        EvalErrorView::ReservedVariableAssignment.text(),
                    ),
                ],
            )
            &&& done.vars == vars
            &&& done.steps == Seq::<StepView<F>>::empty()
        }),
{
}

/// What a command has assigned, a later command finds: after a command
/// `name = ...` that succeeds with some unit, a command that is the name
/// alone succeeds with that unit, and its steps load the variable.
pub proof fn lemma_assignment_is_remembered<F>(
    base: Map<Seq<char>, (F, Seq<char>)>,
    derived: Map<RelationKey, Seq<char>>,
    vars: Map<Seq<char>, Seq<char>>,
    assignment: Seq<char>,
    reference: Seq<char>,
    name: Seq<char>,
)
    requires
        parse(encode_utf8(assignment)) is Ok,
        parse(encode_utf8(assignment))->Ok_0 is Assign,
        parse(encode_utf8(assignment))->Ok_0->name == name,
        execute(base, derived, vars, assignment).result is Ok,
        parse(encode_utf8(reference)) == Ok::<_, int>(
            ExprView::To(Box::new(ExprView::Var(name)), None),
        ),
    ensures
        ({
            let first = execute(base, derived, vars, assignment);
            let second = execute(base, derived, first.vars, reference);
            &&& second.result == first.result
            &&& second.steps == seq![
                StepView::<F>::Load(name),
                StepView::<F>::Store(last_result()),
            ]
            &&& second.vars == first.vars
        }),
{
    let first = execute(base, derived, vars, assignment);
    let second = execute(base, derived, first.vars, reference);
    let unit = first.result->Ok_0;
    assert(name != last_result());
    assert(first.vars.contains_key(name) && first.vars[name] == unit);
    reveal_with_fuel(eval, 2);
    assert(second.steps =~= seq![StepView::<F>::Load(name), StepView::<F>::Store(last_result())]);
    assert(second.vars =~= first.vars);
}

/// What a command changes.
///
/// A command that fails changes no variable at all. An assignment that
/// succeeds gives its variable and `$` the unit of its result; any other
/// command that succeeds gives that unit to `$`. Nothing else changes.
pub proof fn lemma_what_a_command_changes<F>(
    base: Map<Seq<char>, (F, Seq<char>)>,
    derived: Map<RelationKey, Seq<char>>,
    vars: Map<Seq<char>, Seq<char>>,
    command: Seq<char>,
)
    ensures
        ({
            let done = execute(base, derived, vars, command);
            let tree = parse(encode_utf8(command));
            &&& done.result is Err ==> done.vars == vars
            &&& done.result is Ok ==> tree is Ok
            &&& done.result is Ok && tree->Ok_0 is Assign ==> done.vars == vars.insert(
                tree->Ok_0->name,
                done.result->Ok_0,
            ).insert(last_result(), done.result->Ok_0)
            &&& done.result is Ok && !(tree->Ok_0 is Assign) ==> done.vars == vars.insert(
                last_result(),
                done.result->Ok_0,
            )
        }),
{
    lemma_parse_position(encode_utf8(command));
    match parse(encode_utf8(command)) {
        Ok(expr) => {
            match expr {
                ExprView::Assign { name, rhs } => {
                    lemma_plain_changes_nothing(base, derived, vars, *rhs);
                },
                ExprView::To(inner, target) => {
                    lemma_plain_changes_nothing(base, derived, vars, *inner);
                },
                _ => {},
            }
        },
        Err(_) => {},
    }
}

} // verus!
