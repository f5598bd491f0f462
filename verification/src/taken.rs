//! The steps that building the table of relations takes, and what holds of
//! the table where those steps agree.
//!
//! Every relation of the table comes from a step of some chain, and the
//! steps are between declared units. Two steps agree where they give no key
//! two different units. Where all steps agree, nothing that a step has added
//! is ever replaced, and every product can be divided by either operand.

use vstd::prelude::*;
use crate::closure::{all_product_only, product_only, taken_from};
use crate::declared::known;
use crate::definitions::{declared, CategoryView, Declared};
use crate::derivation::{attempt, chain_flaw, chains, derived_ops_of, first_flaw, resolve, resolved, step_flaw, sweep, ChainView};
use crate::operator::{factor_operator, Operator};
use crate::tables::{register, RelationKey};
use crate::unit_table::translation_rejection;

verus! {

/// One step of a chain: `result = left operator right`.
pub struct Taken {
    pub operator: Operator,
    pub left: Seq<char>,
    pub right: Seq<char>,
    pub result: Seq<char>,
}

/// The relations that a step gives: itself and those that follow from it.
pub open spec fn relations(step: Taken) -> Map<RelationKey, Seq<char>> {
    register(Map::empty(), step.operator, step.left, step.right, step.result)
}

/// The table after the steps, taken in order.
pub open spec fn apply(table: Map<RelationKey, Seq<char>>, steps: Seq<Taken>) -> Map<
    RelationKey,
    Seq<char>,
>
    decreases steps.len(),
{
    if steps.len() == 0 {
        table
    } else {
        let step = steps.last();
        register(apply(table, steps.drop_last()), step.operator, step.left, step.right, step.result)
    }
}

/// The steps that a chain takes from word `i` on, where it can be resolved.
pub open spec fn attempt_steps(
    table: Map<RelationKey, Seq<char>>,
    chain: ChainView,
    i: int,
    current: Seq<char>,
) -> Seq<Taken>
    decreases chain.words.len() - i,
{
    if i < 1 || i + 1 >= chain.words.len() {
        Seq::empty()
    } else {
        match factor_operator(chain.words[i]) {
            None => Seq::empty(),
            Some(operator) => {
                let next = chain.words[i + 1];
                if i + 2 >= chain.words.len() {
                    seq![Taken { operator, left: current, right: next, result: chain.target }]
                } else if table.contains_key((current, operator, next)) {
                    let result = table[(current, operator, next)];
                    seq![Taken { operator, left: current, right: next, result }] + attempt_steps(
                        register(table, operator, current, next, result),
                        chain,
                        i + 2,
                        result,
                    )
                } else {
                    Seq::empty()
                }
            },
        }
    }
}

/// The steps of the chains that one pass resolves, in order.
pub open spec fn sweep_steps(table: Map<RelationKey, Seq<char>>, waiting: Seq<ChainView>) -> Seq<
    Taken,
>
    decreases waiting.len(),
{
    if waiting.len() == 0 {
        Seq::empty()
    } else {
        let before = sweep(table, waiting.drop_last());
        let steps = sweep_steps(table, waiting.drop_last());
        if resolved(before.0, waiting.last()) is Some {
            steps + attempt_steps(before.0, waiting.last(), 1, waiting.last().words[0])
        } else {
            steps
        }
    }
}

/// The steps of all passes, in order.
pub open spec fn resolve_steps(table: Map<RelationKey, Seq<char>>, waiting: Seq<ChainView>) -> Seq<
    Taken,
>
    decreases waiting.len(),
{
    if waiting.len() == 0 {
        Seq::empty()
    } else {
        let pass = sweep(table, waiting);
        if pass.1.len() < waiting.len() {
            sweep_steps(table, waiting) + resolve_steps(pass.0, pass.1)
        } else {
            sweep_steps(table, waiting)
        }
    }
}

/// The steps that building the table of relations from `units` takes.
pub open spec fn steps_taken<F>(units: Seq<Declared<F>>) -> Seq<Taken> {
    resolve_steps(Map::empty(), chains(units))
}

/// No two steps give one key two different units.
pub open spec fn agree(steps: Seq<Taken>) -> bool {
    forall|i: int, j: int, key: RelationKey|
        0 <= i < steps.len() && 0 <= j < steps.len() && #[trigger] relations(
            steps[i],
        ).contains_key(key) && #[trigger] relations(steps[j]).contains_key(key) ==> relations(
            steps[i],
        )[key] == relations(steps[j])[key]
}

/// A step adds its relations to a table and changes nothing else.
pub proof fn lemma_register_adds(table: Map<RelationKey, Seq<char>>, step: Taken, key: RelationKey)
    ensures
        ({
            let after = register(table, step.operator, step.left, step.right, step.result);
            if relations(step).contains_key(key) {
                after.contains_key(key) && after[key] == relations(step)[key]
            } else {
                after.contains_key(key) == table.contains_key(key) && (table.contains_key(key)
                    ==> after[key] == table[key])
            }
        }),
{
}

pub proof fn lemma_apply_joined(
    table: Map<RelationKey, Seq<char>>,
    first: Seq<Taken>,
    second: Seq<Taken>,
)
    ensures
        apply(table, first + second) == apply(apply(table, first), second),
    decreases second.len(),
{
    if second.len() == 0 {
        assert(first + second =~= first);
    } else {
        lemma_apply_joined(table, first, second.drop_last());
        assert((first + second).drop_last() =~= first + second.drop_last());
        assert((first + second).last() == second.last());
    }
}

pub proof fn lemma_apply_one(table: Map<RelationKey, Seq<char>>, step: Taken)
    ensures
        apply(table, seq![step]) == register(
            table,
            step.operator,
            step.left,
            step.right,
            step.result,
        ),
{
    assert(seq![step].drop_last() =~= Seq::<Taken>::empty());
    reveal_with_fuel(apply, 2);
}

/// A chain that is resolved changes the table by its steps.
pub proof fn lemma_attempt_applies(
    table: Map<RelationKey, Seq<char>>,
    chain: ChainView,
    i: int,
    current: Seq<char>,
)
    requires
        attempt(table, chain, i, current) is Some,
    ensures
        attempt(table, chain, i, current)->0 == apply(
            table,
            attempt_steps(table, chain, i, current),
        ),
    decreases chain.words.len() - i,
{
    if i < 1 || i + 1 >= chain.words.len() {
    } else {
        let operator = factor_operator(chain.words[i])->0;
        let next = chain.words[i + 1];
        if i + 2 >= chain.words.len() {
            lemma_apply_one(table, Taken { operator, left: current, right: next, result: chain.target });
        } else {
            let result = table[(current, operator, next)];
            let step = Taken { operator, left: current, right: next, result };
            let after = register(table, operator, current, next, result);
            lemma_attempt_applies(after, chain, i + 2, result);
            lemma_apply_one(table, step);
            lemma_apply_joined(table, seq![step], attempt_steps(after, chain, i + 2, result));
        }
    }
}

/// A pass changes the table by its steps.
pub proof fn lemma_sweep_applies(table: Map<RelationKey, Seq<char>>, waiting: Seq<ChainView>)
    ensures
        sweep(table, waiting).0 == apply(table, sweep_steps(table, waiting)),
        taken_from(sweep(table, waiting).1, waiting),
    decreases waiting.len(),
{
    if waiting.len() > 0 {
        let front = waiting.drop_last();
        let last = waiting.last();
        lemma_sweep_applies(table, front);
        let before = sweep(table, front);
        assert forall|m: int| 0 <= m < before.1.len() implies exists|k: int|
            0 <= k < waiting.len() && #[trigger] before.1[m] == waiting[k] by {
            let k = choose|k: int| 0 <= k < front.len() && before.1[m] == front[k];
            assert(front[k] == waiting[k]);
        }
        if resolved(before.0, last) is Some {
            lemma_attempt_applies(before.0, last, 1, last.words[0]);
            lemma_apply_joined(
                table,
                sweep_steps(table, front),
                attempt_steps(before.0, last, 1, last.words[0]),
            );
        } else {
            let rest = before.1.push(last);
            assert forall|m: int| 0 <= m < rest.len() implies exists|k: int|
                0 <= k < waiting.len() && #[trigger] rest[m] == waiting[k] by {
                if m < before.1.len() {
                    assert(rest[m] == before.1[m]);
                } else {
                    assert(rest[m] == waiting[waiting.len() - 1]);
                }
            }
        }
    }
}

/// The table that is built is the empty table changed by the steps taken.
pub proof fn lemma_resolve_applies(table: Map<RelationKey, Seq<char>>, waiting: Seq<ChainView>)
    requires
        resolve(table, waiting) is Ok,
    ensures
        resolve(table, waiting)->Ok_0 == apply(table, resolve_steps(table, waiting)),
    decreases waiting.len(),
{
    if waiting.len() > 0 {
        let pass = sweep(table, waiting);
        lemma_sweep_applies(table, waiting);
        lemma_resolve_applies(pass.0, pass.1);
        lemma_apply_joined(table, sweep_steps(table, waiting), resolve_steps(pass.0, pass.1));
    }
}

/// Every relation of a table after some steps was in the table before, or
/// is given by one of the steps.
pub proof fn lemma_apply_origin(table: Map<RelationKey, Seq<char>>, steps: Seq<Taken>, key: RelationKey)
    requires
        apply(table, steps).contains_key(key),
    ensures
        (table.contains_key(key) && table[key] == apply(table, steps)[key]) || exists|i: int|
            0 <= i < steps.len() && #[trigger] relations(steps[i]).contains_key(key) && relations(
                steps[i],
            )[key] == apply(table, steps)[key],
    decreases steps.len(),
{
    if steps.len() > 0 {
        let front = steps.drop_last();
        let last = steps.last();
        lemma_register_adds(apply(table, front), last, key);
        if relations(last).contains_key(key) {
            assert(relations(steps[steps.len() - 1]).contains_key(key));
        } else {
            lemma_apply_origin(table, front, key);
            if !(table.contains_key(key) && table[key] == apply(table, front)[key]) {
                let i = choose|i: int|
                    0 <= i < front.len() && #[trigger] relations(front[i]).contains_key(key)
                        && relations(front[i])[key] == apply(table, front)[key];
                assert(front[i] == steps[i]);
                assert(relations(steps[i]).contains_key(key));
            }
        }
    }
}

/// What a step gives stays under its key, whatever unit later steps put there.
pub proof fn lemma_apply_keeps_keys(
    table: Map<RelationKey, Seq<char>>,
    steps: Seq<Taken>,
    i: int,
    key: RelationKey,
)
    requires
        0 <= i < steps.len(),
        relations(steps[i]).contains_key(key),
    ensures
        apply(table, steps).contains_key(key),
    decreases steps.len(),
{
    let front = steps.drop_last();
    lemma_register_adds(apply(table, front), steps.last(), key);
    if i < steps.len() - 1 {
        assert(front[i] == steps[i]);
        lemma_apply_keeps_keys(table, front, i, key);
    }
}

/// Where the steps agree, the table holds every relation of every step.
pub proof fn lemma_agreeing_steps_stand(steps: Seq<Taken>, i: int, key: RelationKey)
    requires
        agree(steps),
        0 <= i < steps.len(),
        relations(steps[i]).contains_key(key),
    ensures
        apply(Map::empty(), steps).contains_key(key),
        apply(Map::empty(), steps)[key] == relations(steps[i])[key],
{
    lemma_apply_keeps_keys(Map::empty(), steps, i, key);
    lemma_apply_origin(Map::empty(), steps, key);
    let j = choose|j: int|
        0 <= j < steps.len() && #[trigger] relations(steps[j]).contains_key(key) && relations(
            steps[j],
        )[key] == apply(Map::empty(), steps)[key];
    assert(relations(steps[i]).contains_key(key));
}

/// The step is between declared units, and its operator is `*` or `/`.
pub open spec fn between<F>(units: Seq<Declared<F>>, step: Taken) -> bool {
    &&& known(units, step.left)
    &&& known(units, step.right)
    &&& known(units, step.result)
    &&& (step.operator == Operator::Multiply || step.operator == Operator::Divide)
}

pub open spec fn all_between<F>(units: Seq<Declared<F>>, steps: Seq<Taken>) -> bool {
    forall|n: int| 0 <= n < steps.len() ==> between(units, #[trigger] steps[n])
}

/// Every step is a product.
pub open spec fn all_products(steps: Seq<Taken>) -> bool {
    forall|n: int| 0 <= n < steps.len() ==> (#[trigger] steps[n]).operator == Operator::Multiply
}

/// Every unit that the table gives is declared.
pub open spec fn gives_declared<F>(table: Map<RelationKey, Seq<char>>, units: Seq<Declared<F>>) -> bool {
    forall|key: RelationKey| #[trigger] table.contains_key(key) ==> known(units, table[key])
}

/// Every chain is without flaw and defines a declared unit.
pub open spec fn sound_chains<F>(units: Seq<Declared<F>>, list: Seq<ChainView>) -> bool {
    forall|k: int|
        0 <= k < list.len() ==> chain_flaw(units, #[trigger] list[k]) is None && known(
            units,
            list[k].target,
        )
}

proof fn lemma_joined_steps<F>(units: Seq<Declared<F>>, first: Seq<Taken>, second: Seq<Taken>)
    ensures
        all_between(units, first) && all_between(units, second) ==> all_between(
            units,
            first + second,
        ),
        all_products(first) && all_products(second) ==> all_products(first + second),
{
    if all_between(units, first) && all_between(units, second) {
        assert forall|n: int| 0 <= n < (first + second).len() implies between(
            units,
            #[trigger] (first + second)[n],
        ) by {
            if n < first.len() {
                assert((first + second)[n] == first[n]);
            } else {
                assert((first + second)[n] == second[n - first.len()]);
            }
        }
    }
    if all_products(first) && all_products(second) {
        assert forall|n: int| 0 <= n < (first + second).len() implies (#[trigger] (first
            + second)[n]).operator == Operator::Multiply by {
            if n < first.len() {
                assert((first + second)[n] == first[n]);
            } else {
                assert((first + second)[n] == second[n - first.len()]);
            }
        }
    }
}

proof fn lemma_step_gives_declared<F>(
    table: Map<RelationKey, Seq<char>>,
    units: Seq<Declared<F>>,
    step: Taken,
)
    requires
        gives_declared(table, units),
        between(units, step),
    ensures
        gives_declared(register(table, step.operator, step.left, step.right, step.result), units),
{
    let after = register(table, step.operator, step.left, step.right, step.result);
    assert forall|key: RelationKey| #[trigger] after.contains_key(key) implies known(
        units,
        after[key],
    ) by {
        lemma_register_adds(table, step, key);
        if !relations(step).contains_key(key) {
            assert(table.contains_key(key));
        }
    }
}

proof fn lemma_attempt_steps_sound<F>(
    units: Seq<Declared<F>>,
    table: Map<RelationKey, Seq<char>>,
    chain: ChainView,
    i: int,
    current: Seq<char>,
)
    requires
        gives_declared(table, units),
        known(units, current),
        known(units, chain.target),
        1 <= i,
        step_flaw(units, chain, i) is None,
    ensures
        all_between(units, attempt_steps(table, chain, i, current)),
        product_only(chain) ==> all_products(attempt_steps(table, chain, i, current)),
        attempt(table, chain, i, current) is Some ==> gives_declared(
            attempt(table, chain, i, current)->0,
            units,
        ),
    decreases chain.words.len() - i,
{
    if i + 1 >= chain.words.len() {
    } else {
        let operator = factor_operator(chain.words[i])->0;
        let next = chain.words[i + 1];
        if i + 2 >= chain.words.len() {
            let step = Taken { operator, left: current, right: next, result: chain.target };
            lemma_step_gives_declared(table, units, step);
            assert(attempt_steps(table, chain, i, current)[0] == step);
        } else if table.contains_key((current, operator, next)) {
            let result = table[(current, operator, next)];
            let step = Taken { operator, left: current, right: next, result };
            let after = register(table, operator, current, next, result);
            lemma_step_gives_declared(table, units, step);
            lemma_attempt_steps_sound(units, after, chain, i + 2, result);
            assert(seq![step][0] == step);
            lemma_joined_steps(units, seq![step], attempt_steps(after, chain, i + 2, result));
        }
    }
}

proof fn lemma_sweep_steps_sound<F>(
    units: Seq<Declared<F>>,
    table: Map<RelationKey, Seq<char>>,
    waiting: Seq<ChainView>,
)
    requires
        gives_declared(table, units),
        sound_chains(units, waiting),
    ensures
        all_between(units, sweep_steps(table, waiting)),
        all_product_only(waiting) ==> all_products(sweep_steps(table, waiting)),
        gives_declared(sweep(table, waiting).0, units),
    decreases waiting.len(),
{
    if waiting.len() > 0 {
        let front = waiting.drop_last();
        let last = waiting.last();
        assert forall|k: int| 0 <= k < front.len() implies chain_flaw(units, #[trigger] front[k])
            is None && known(units, front[k].target) && (all_product_only(waiting)
            ==> product_only(front[k])) by {
            assert(front[k] == waiting[k]);
        }
        lemma_sweep_steps_sound(units, table, front);
        let before = sweep(table, front);
        assert(last == waiting[waiting.len() - 1]);
        assert(chain_flaw(units, last) is None);
        if resolved(before.0, last) is Some {
            lemma_attempt_steps_sound(units, before.0, last, 1, last.words[0]);
            lemma_joined_steps(
                units,
                sweep_steps(table, front),
                attempt_steps(before.0, last, 1, last.words[0]),
            );
        }
    }
}

proof fn lemma_resolve_steps_sound<F>(
    units: Seq<Declared<F>>,
    table: Map<RelationKey, Seq<char>>,
    waiting: Seq<ChainView>,
)
    requires
        gives_declared(table, units),
        sound_chains(units, waiting),
    ensures
        all_between(units, resolve_steps(table, waiting)),
        all_product_only(waiting) ==> all_products(resolve_steps(table, waiting)),
    decreases waiting.len(),
{
    if waiting.len() > 0 {
        let pass = sweep(table, waiting);
        lemma_sweep_steps_sound(units, table, waiting);
        lemma_sweep_applies(table, waiting);
        if pass.1.len() < waiting.len() {
            assert forall|m: int| 0 <= m < pass.1.len() implies chain_flaw(
                units,
                #[trigger] pass.1[m],
            ) is None && known(units, pass.1[m].target) && (all_product_only(waiting)
                ==> product_only(pass.1[m])) by {
                let k = choose|k: int| 0 <= k < waiting.len() && pass.1[m] == waiting[k];
                assert(chain_flaw(units, waiting[k]) is None);
            }
            lemma_resolve_steps_sound(units, pass.0, pass.1);
            lemma_joined_steps(units, sweep_steps(table, waiting), resolve_steps(pass.0, pass.1));
        }
    }
}

proof fn lemma_no_flaw<F>(units: Seq<Declared<F>>, all: Seq<ChainView>, k: int, j: int)
    requires
        0 <= k <= j < all.len(),
        first_flaw(units, all, k) is None,
    ensures
        chain_flaw(units, all[j]) is None,
    decreases all.len() - k,
{
    if k < j {
        lemma_no_flaw(units, all, k + 1, j);
    }
}

/// Where a table of relations is built, its chains are without flaw and
/// define declared units, and the table is the empty table changed by the
/// steps taken.
pub proof fn lemma_table_is_the_steps_applied<F>(definitions: Seq<CategoryView<F>>)
    requires
        translation_rejection(definitions) is None,
    ensures
        derived_ops_of(declared(definitions)) is Ok,
        derived_ops_of(declared(definitions))->Ok_0 == apply(
            Map::empty(),
            steps_taken(declared(definitions)),
        ),
        sound_chains(declared(definitions), chains(declared(definitions))),
{
    let units = declared(definitions);
    let all = chains(units);
    crate::closure::lemma_chains_of_units(units);
    assert forall|k: int| 0 <= k < all.len() implies chain_flaw(units, #[trigger] all[k]) is None
        && known(units, all[k].target) by {
        lemma_no_flaw(units, all, 0, k);
        let n = choose|n: int| 0 <= n < units.len() && all[k].target == units[n].key;
        assert(units[n].key == all[k].target);
    }
    lemma_resolve_applies(Map::empty(), all);
}

/// Every relation of the table comes from a step that was taken.
pub proof fn lemma_relations_come_from_steps<F>(definitions: Seq<CategoryView<F>>, key: RelationKey) -> (i:
    int)
    requires
        translation_rejection(definitions) is None,
        derived_ops_of(declared(definitions))->Ok_0.contains_key(key),
    ensures
        0 <= i < steps_taken(declared(definitions)).len(),
        relations(steps_taken(declared(definitions))[i]).contains_key(key),
        relations(steps_taken(declared(definitions))[i])[key] == derived_ops_of(
            declared(definitions),
        )->Ok_0[key],
{
    let steps = steps_taken(declared(definitions));
    lemma_table_is_the_steps_applied(definitions);
    lemma_apply_origin(Map::empty(), steps, key);
    choose|i: int|
        0 <= i < steps.len() && #[trigger] relations(steps[i]).contains_key(key) && relations(
            steps[i],
        )[key] == apply(Map::empty(), steps)[key]
}

/// Every step that is taken is between declared units, with `*` or `/`; and
/// where no chain divides, every step is a product.
pub proof fn lemma_steps_are_between_declared_units<F>(definitions: Seq<CategoryView<F>>)
    requires
        translation_rejection(definitions) is None,
    ensures
        all_between(declared(definitions), steps_taken(declared(definitions))),
        all_product_only(chains(declared(definitions))) ==> all_products(
            steps_taken(declared(definitions)),
        ),
{
    lemma_table_is_the_steps_applied(definitions);
    lemma_resolve_steps_sound(declared(definitions), Map::empty(), chains(declared(definitions)));
}

/// Every relation of the table is between declared units: the two units of
/// its key and the unit that it gives are declared, and its operator is `*`
/// or `/`.
pub proof fn lemma_relations_are_between_declared_units<F>(
    definitions: Seq<CategoryView<F>>,
    left: Seq<char>,
    operator: Operator,
    right: Seq<char>,
)
    requires
        translation_rejection(definitions) is None,
        derived_ops_of(declared(definitions))->Ok_0.contains_key((left, operator, right)),
    ensures
        known(declared(definitions), left),
        known(declared(definitions), right),
        known(
            declared(definitions),
            derived_ops_of(declared(definitions))->Ok_0[(left, operator, right)],
        ),
        operator == Operator::Multiply || operator == Operator::Divide,
{
    let steps = steps_taken(declared(definitions));
    let i = lemma_relations_come_from_steps(definitions, (left, operator, right));
    lemma_steps_are_between_declared_units(definitions);
    assert(between(declared(definitions), steps[i]));
}

/// Within one step, a product can be divided by either operand.
pub proof fn lemma_product_in_step(step: Taken, a: Seq<char>, b: Seq<char>)
    requires
        relations(step).contains_key((a, Operator::Multiply, b)),
    ensures
        ({
            let c = relations(step)[(a, Operator::Multiply, b)];
            &&& relations(step).contains_key((c, Operator::Divide, a))
            &&& relations(step)[(c, Operator::Divide, a)] == b
            &&& relations(step).contains_key((c, Operator::Divide, b))
            &&& relations(step)[(c, Operator::Divide, b)] == a
        }),
{
}

/// Within one step, a quotient can be divided the other way; within a
/// product, it also multiplies back.
pub proof fn lemma_quotient_in_step(step: Taken, a: Seq<char>, b: Seq<char>)
    requires
        relations(step).contains_key((a, Operator::Divide, b)),
    ensures
        ({
            let c = relations(step)[(a, Operator::Divide, b)];
            &&& relations(step).contains_key((a, Operator::Divide, c))
            &&& relations(step)[(a, Operator::Divide, c)] == b
            &&& step.operator == Operator::Multiply ==> relations(step).contains_key(
                (c, Operator::Multiply, b),
            ) && relations(step)[(c, Operator::Multiply, b)] == a
        }),
{
}

/// Where the steps agree, every product can be divided by either operand,
/// whether the chains multiply or divide: if the table gives `c` for
/// `a * b`, it gives `b` for `c / a` and `a` for `c / b`.
pub proof fn lemma_agreed_products_invert<F>(
    definitions: Seq<CategoryView<F>>,
    a: Seq<char>,
    b: Seq<char>,
)
    requires
        translation_rejection(definitions) is None,
        agree(steps_taken(declared(definitions))),
        derived_ops_of(declared(definitions))->Ok_0.contains_key((a, Operator::Multiply, b)),
    ensures
        ({
            let table = derived_ops_of(declared(definitions))->Ok_0;
            let c = table[(a, Operator::Multiply, b)];
            &&& table.contains_key((c, Operator::Divide, a))
            &&& table[(c, Operator::Divide, a)] == b
            &&& table.contains_key((c, Operator::Divide, b))
            &&& table[(c, Operator::Divide, b)] == a
        }),
{
    let steps = steps_taken(declared(definitions));
    let table = derived_ops_of(declared(definitions))->Ok_0;
    let c = table[(a, Operator::Multiply, b)];
    let i = lemma_relations_come_from_steps(definitions, (a, Operator::Multiply, b));
    lemma_table_is_the_steps_applied(definitions);
    lemma_product_in_step(steps[i], a, b);
    lemma_agreeing_steps_stand(steps, i, (c, Operator::Divide, a));
    lemma_agreeing_steps_stand(steps, i, (c, Operator::Divide, b));
}

/// Where the steps agree, every quotient can be divided the other way: if
/// the table gives `c` for `a / b`, it gives `b` for `a / c`. Where moreover
/// no chain divides, it multiplies back: the table gives `a` for `c * b`.
pub proof fn lemma_agreed_quotients_invert<F>(
    definitions: Seq<CategoryView<F>>,
    a: Seq<char>,
    b: Seq<char>,
)
    requires
        translation_rejection(definitions) is None,
        agree(steps_taken(declared(definitions))),
        derived_ops_of(declared(definitions))->Ok_0.contains_key((a, Operator::Divide, b)),
    ensures
        ({
            let table = derived_ops_of(declared(definitions))->Ok_0;
            let c = table[(a, Operator::Divide, b)];
            &&& table.contains_key((a, Operator::Divide, c))
            &&& table[(a, Operator::Divide, c)] == b
            &&& all_product_only(chains(declared(definitions))) ==> table.contains_key(
                (c, Operator::Multiply, b),
            ) && table[(c, Operator::Multiply, b)] == a
        }),
{
    let steps = steps_taken(declared(definitions));
    let table = derived_ops_of(declared(definitions))->Ok_0;
    let c = table[(a, Operator::Divide, b)];
    let i = lemma_relations_come_from_steps(definitions, (a, Operator::Divide, b));
    lemma_table_is_the_steps_applied(definitions);
    lemma_quotient_in_step(steps[i], a, b);
    lemma_agreeing_steps_stand(steps, i, (a, Operator::Divide, c));
    if all_product_only(chains(declared(definitions))) {
        lemma_steps_are_between_declared_units(definitions);
        assert(steps[i].operator == Operator::Multiply);
        lemma_agreeing_steps_stand(steps, i, (c, Operator::Multiply, b));
    }
}

} // verus!
