//! What holds of the table of relations.
//!
//! A step of a chain adds its relation together with those that follow from
//! it. A later step may replace what an earlier one added, and a quotient
//! adds a product in one order only; so of a whole table the two laws on
//! products are stated here for definitions that are written with `*`
//! alone. What holds where chains divide as well, as long as no step
//! replaces what another has added, is stated with the steps themselves.

use vstd::prelude::*;
use crate::declared::{has_duplicate, repeats};
use crate::definitions::{declared, CategoryView, Declared};
use crate::derivation::{attempt, chain_of, chains, derived_ops_of, resolve, resolved, sweep, ChainView};
use crate::operator::{factor_operator, Operator};
use crate::tables::{register, RelationKey};
use crate::unit_table::translation_rejection;

verus! {

/// The relations of a product: after the step `r = a * b` the table gives
/// `r` for `a * b` and for `b * a`, `b` for `r / a` and `a` for `r / b`.
pub proof fn lemma_product_relations(
    table: Map<RelationKey, Seq<char>>,
    a: Seq<char>,
    b: Seq<char>,
    r: Seq<char>,
)
    ensures
        ({
            let after = register(table, Operator::Multiply, a, b, r);
            &&& after.contains_key((a, Operator::Multiply, b))
            &&& after[(a, Operator::Multiply, b)] == r
            &&& after.contains_key((b, Operator::Multiply, a))
            &&& after[(b, Operator::Multiply, a)] == r
            &&& after.contains_key((r, Operator::Divide, a))
            &&& after[(r, Operator::Divide, a)] == b
            &&& after.contains_key((r, Operator::Divide, b))
            &&& after[(r, Operator::Divide, b)] == a
        }),
{
}

/// The relations of a quotient: after the step `r = a / b` the table gives
/// `r` for `a / b`, `b` for `a / r` and `a` for `r * b`.
pub proof fn lemma_quotient_relations(
    table: Map<RelationKey, Seq<char>>,
    a: Seq<char>,
    b: Seq<char>,
    r: Seq<char>,
)
    ensures
        ({
            let after = register(table, Operator::Divide, a, b, r);
            &&& after.contains_key((a, Operator::Divide, b))
            &&& after[(a, Operator::Divide, b)] == r
            &&& after.contains_key((a, Operator::Divide, r))
            &&& after[(a, Operator::Divide, r)] == b
            &&& after.contains_key((r, Operator::Multiply, b))
            &&& after[(r, Operator::Multiply, b)] == a
        }),
{
}

/// A step changes no relation but those that it adds.
pub proof fn lemma_other_relations_stay(
    table: Map<RelationKey, Seq<char>>,
    operator: Operator,
    a: Seq<char>,
    b: Seq<char>,
    r: Seq<char>,
    key: RelationKey,
)
    requires
        operator == Operator::Multiply ==> key != (a, Operator::Multiply, b) && key != (
            b,
            Operator::Multiply,
            a,
        ) && key != (r, Operator::Divide, a) && key != (r, Operator::Divide, b),
        operator == Operator::Divide ==> key != (a, Operator::Divide, b) && key != (
            a,
            Operator::Divide,
            r,
        ) && key != (r, Operator::Multiply, b),
    ensures
        register(table, operator, a, b, r).contains_key(key) == table.contains_key(key),
        table.contains_key(key) ==> register(table, operator, a, b, r)[key] == table[key],
{
}

/// The table holds the relation `r = a operator b` and those that follow
/// from it: adding them again changes nothing.
pub open spec fn holds(
    table: Map<RelationKey, Seq<char>>,
    operator: Operator,
    a: Seq<char>,
    b: Seq<char>,
    r: Seq<char>,
) -> bool {
    register(table, operator, a, b, r) == table
}

/// A table holds the relations of the step that was taken last.
pub proof fn lemma_step_holds(
    table: Map<RelationKey, Seq<char>>,
    operator: Operator,
    a: Seq<char>,
    b: Seq<char>,
    r: Seq<char>,
)
    ensures
        holds(register(table, operator, a, b, r), operator, a, b, r),
{
    let after = register(table, operator, a, b, r);
    assert(register(after, operator, a, b, r) =~= after);
}

/// The unit that a chain has reached before its last step, where the steps
/// from word `i` on can be taken.
pub open spec fn last_operand(
    table: Map<RelationKey, Seq<char>>,
    chain: ChainView,
    i: int,
    current: Seq<char>,
) -> Seq<char>
    decreases chain.words.len() - i,
{
    if i < 1 || i + 2 >= chain.words.len() {
        current
    } else {
        let operator = factor_operator(chain.words[i])->0;
        let next = chain.words[i + 1];
        let result = table[(current, operator, next)];
        last_operand(register(table, operator, current, next, result), chain, i + 2, result)
    }
}

proof fn lemma_attempt_ends_with_its_last_step(
    table: Map<RelationKey, Seq<char>>,
    chain: ChainView,
    i: int,
    current: Seq<char>,
)
    requires
        1 <= i,
        i + 1 < chain.words.len(),
        (chain.words.len() - i) % 2 == 0,
        attempt(table, chain, i, current) is Some,
    ensures
        factor_operator(chain.words[chain.words.len() - 2]) is Some,
        holds(
            attempt(table, chain, i, current)->0,
            factor_operator(chain.words[chain.words.len() - 2])->0,
            last_operand(table, chain, i, current),
            chain.words.last(),
            chain.target,
        ),
    decreases chain.words.len() - i,
{
    let operator = factor_operator(chain.words[i])->0;
    let next = chain.words[i + 1];
    if i + 2 >= chain.words.len() {
        lemma_step_holds(table, operator, current, next, chain.target);
    } else {
        let result = table[(current, operator, next)];
        lemma_attempt_ends_with_its_last_step(
            register(table, operator, current, next, result),
            chain,
            i + 2,
            result,
        );
    }
}

/// A chain that has just been resolved holds: the table gives the unit that
/// the chain defines for its last step, with the relations that follow from
/// that step. For a chain `a * b` that defines `r` these are `a * b = r`,
/// `b * a = r`, `r / a = b` and `r / b = a`; for a chain `a / b` they are
/// `a / b = r`, `a / r = b` and `r * b = a`.
pub proof fn lemma_resolved_chain_holds(table: Map<RelationKey, Seq<char>>, chain: ChainView)
    requires
        chain.words.len() >= 3,
        chain.words.len() % 2 == 1,
        resolved(table, chain) is Some,
    ensures
        factor_operator(chain.words[chain.words.len() - 2]) is Some,
        holds(
            resolved(table, chain)->0,
            factor_operator(chain.words[chain.words.len() - 2])->0,
            last_operand(table, chain, 1, chain.words[0]),
            chain.words.last(),
            chain.target,
        ),
        chain.words.len() == 3 ==> last_operand(table, chain, 1, chain.words[0]) == chain.words[0],
{
    lemma_attempt_ends_with_its_last_step(table, chain, 1, chain.words[0]);
}

/// Products do not depend on the order of their operands.
pub open spec fn commutative(table: Map<RelationKey, Seq<char>>) -> bool {
    forall|a: Seq<char>, b: Seq<char>| #[trigger]
        table.contains_key((a, Operator::Multiply, b)) ==> table.contains_key(
            (b, Operator::Multiply, a),
        ) && table[(b, Operator::Multiply, a)] == table[(a, Operator::Multiply, b)]
}

/// Every product can be divided by either operand, which gives the other.
pub open spec fn invertible(table: Map<RelationKey, Seq<char>>) -> bool {
    forall|a: Seq<char>, b: Seq<char>| #[trigger]
        table.contains_key((a, Operator::Multiply, b)) ==> {
            let c = table[(a, Operator::Multiply, b)];
            &&& table.contains_key((c, Operator::Divide, a))
            &&& table[(c, Operator::Divide, a)] == b
            &&& table.contains_key((c, Operator::Divide, b))
            &&& table[(c, Operator::Divide, b)] == a
        }
}

/// Every product is one of the units in `done`.
pub open spec fn products_within(table: Map<RelationKey, Seq<char>>, done: Set<Seq<char>>) -> bool {
    forall|a: Seq<char>, b: Seq<char>| #[trigger]
        table.contains_key((a, Operator::Multiply, b)) ==> done.contains(
            table[(a, Operator::Multiply, b)],
        )
}

/// The chain has no operator but `*`.
pub open spec fn product_only(chain: ChainView) -> bool {
    forall|i: int|
        0 <= i < chain.words.len() ==> factor_operator(#[trigger] chain.words[i]) != Some(
            Operator::Divide,
        )
}

pub open spec fn all_product_only(list: Seq<ChainView>) -> bool {
    forall|k: int| 0 <= k < list.len() ==> product_only(#[trigger] list[k])
}

/// No two chains define the same unit.
pub open spec fn distinct_targets(list: Seq<ChainView>) -> bool {
    forall|j: int, k: int|
        0 <= j < k < list.len() ==> (#[trigger] list[j]).target != (#[trigger] list[k]).target
}

/// None of the chains defines a unit in `done`.
pub open spec fn targets_outside(list: Seq<ChainView>, done: Set<Seq<char>>) -> bool {
    forall|k: int| 0 <= k < list.len() ==> !done.contains((#[trigger] list[k]).target)
}

/// Every chain of `part` is one of `whole`.
pub open spec fn taken_from(part: Seq<ChainView>, whole: Seq<ChainView>) -> bool {
    forall|m: int|
        0 <= m < part.len() ==> exists|k: int| 0 <= k < whole.len() && #[trigger] part[m] == whole[k]
}

/// What every pass keeps: products commute, have their quotients, and are
/// units that are done.
pub open spec fn closed(table: Map<RelationKey, Seq<char>>, done: Set<Seq<char>>) -> bool {
    commutative(table) && invertible(table) && products_within(table, done)
}

proof fn lemma_new_product(
    table: Map<RelationKey, Seq<char>>,
    done: Set<Seq<char>>,
    a: Seq<char>,
    b: Seq<char>,
    r: Seq<char>,
)
    requires
        closed(table, done),
        !done.contains(r),
    ensures
        closed(register(table, Operator::Multiply, a, b, r), done.insert(r)),
{
    let after = register(table, Operator::Multiply, a, b, r);
    lemma_product_relations(table, a, b, r);
    assert forall|x: Seq<char>, y: Seq<char>| #[trigger]
        after.contains_key((x, Operator::Multiply, y)) implies {
        let c = after[(x, Operator::Multiply, y)];
        &&& after.contains_key((y, Operator::Multiply, x))
        &&& after[(y, Operator::Multiply, x)] == c
        &&& after.contains_key((c, Operator::Divide, x))
        &&& after[(c, Operator::Divide, x)] == y
        &&& after.contains_key((c, Operator::Divide, y))
        &&& after[(c, Operator::Divide, y)] == x
        &&& done.insert(r).contains(c)
    } by {
        if (x == a && y == b) || (x == b && y == a) {
        } else {
            assert(table.contains_key((x, Operator::Multiply, y)));
            let c = table[(x, Operator::Multiply, y)];
            assert(done.contains(c));
            assert(c != r);
            lemma_other_relations_stay(table, Operator::Multiply, a, b, r, (x, Operator::Multiply, y));
            lemma_other_relations_stay(table, Operator::Multiply, a, b, r, (y, Operator::Multiply, x));
            lemma_other_relations_stay(table, Operator::Multiply, a, b, r, (c, Operator::Divide, x));
            lemma_other_relations_stay(table, Operator::Multiply, a, b, r, (c, Operator::Divide, y));
        }
    }
}

proof fn lemma_known_product(table: Map<RelationKey, Seq<char>>, a: Seq<char>, b: Seq<char>)
    requires
        commutative(table),
        invertible(table),
        table.contains_key((a, Operator::Multiply, b)),
    ensures
        register(table, Operator::Multiply, a, b, table[(a, Operator::Multiply, b)]) == table,
{
    let r = table[(a, Operator::Multiply, b)];
    assert(register(table, Operator::Multiply, a, b, r) =~= table);
}

proof fn lemma_attempt_closed(
    table: Map<RelationKey, Seq<char>>,
    done: Set<Seq<char>>,
    chain: ChainView,
    i: int,
    current: Seq<char>,
)
    requires
        closed(table, done),
        product_only(chain),
        !done.contains(chain.target),
        attempt(table, chain, i, current) is Some,
    ensures
        closed(attempt(table, chain, i, current)->0, done.insert(chain.target)),
    decreases chain.words.len() - i,
{
    if i < 1 || i + 1 >= chain.words.len() {
        assert(products_within(table, done.insert(chain.target)));
    } else {
        let operator = factor_operator(chain.words[i])->0;
        assert(factor_operator(chain.words[i]) is Some);
        assert(operator == Operator::Multiply);
        let next = chain.words[i + 1];
        if i + 2 >= chain.words.len() {
            lemma_new_product(table, done, current, next, chain.target);
        } else {
            lemma_known_product(table, current, next);
            lemma_attempt_closed(table, done, chain, i + 2, table[(current, operator, next)]);
        }
    }
}

proof fn lemma_sweep_closed(
    table: Map<RelationKey, Seq<char>>,
    done: Set<Seq<char>>,
    waiting: Seq<ChainView>,
) -> (after: Set<Seq<char>>)
    requires
        closed(table, done),
        all_product_only(waiting),
        distinct_targets(waiting),
        targets_outside(waiting, done),
    ensures
        closed(sweep(table, waiting).0, after),
        targets_outside(sweep(table, waiting).1, after),
        taken_from(sweep(table, waiting).1, waiting),
        distinct_targets(sweep(table, waiting).1),
        sweep(table, waiting).1.len() <= waiting.len(),
        forall|unit: Seq<char>|
            after.contains(unit) ==> done.contains(unit) || exists|k: int|
                0 <= k < waiting.len() && (#[trigger] waiting[k]).target == unit,
    decreases waiting.len(),
{
    if waiting.len() == 0 {
        done
    } else {
        let front = waiting.drop_last();
        let last = waiting.last();
        assert forall|k: int| 0 <= k < front.len() implies #[trigger] front[k] == waiting[k] by {}
        assert(all_product_only(front)) by {
            assert forall|k: int| 0 <= k < front.len() implies product_only(#[trigger] front[k]) by {
                assert(front[k] == waiting[k]);
            }
        }
        assert(distinct_targets(front)) by {
            assert forall|j: int, k: int| 0 <= j < k < front.len() implies (#[trigger] front[j]).target
                != (#[trigger] front[k]).target by {
                assert(front[j] == waiting[j]);
                assert(front[k] == waiting[k]);
            }
        }
        assert(targets_outside(front, done)) by {
            assert forall|k: int| 0 <= k < front.len() implies !done.contains(
                (#[trigger] front[k]).target,
            ) by {
                assert(front[k] == waiting[k]);
            }
        }
        let middle = lemma_sweep_closed(table, done, front);
        let before = sweep(table, front);
        assert(last == waiting[waiting.len() - 1]);
        assert(!middle.contains(last.target)) by {
            if middle.contains(last.target) {
                assert(!done.contains(last.target));
                let k = choose|k: int| 0 <= k < front.len() && (#[trigger] front[k]).target == last.target;
                assert(front[k] == waiting[k]);
            }
        }
        assert forall|m: int| 0 <= m < before.1.len() implies (#[trigger] before.1[m]).target
            != last.target && exists|k: int| 0 <= k < waiting.len() && before.1[m] == waiting[k] by {
            let k = choose|k: int| 0 <= k < front.len() && before.1[m] == front[k];
            assert(front[k] == waiting[k]);
        }
        match resolved(before.0, last) {
            Some(table_after) => {
                lemma_attempt_closed(before.0, middle, last, 1, last.words[0]);
                let after = middle.insert(last.target);
                assert(sweep(table, waiting).1 == before.1);
                assert(taken_from(before.1, waiting));
                after
            },
            None => {
                let rest = before.1.push(last);
                assert(sweep(table, waiting).1 == rest);
                assert(taken_from(rest, waiting)) by {
                    assert forall|m: int| 0 <= m < rest.len() implies exists|k: int|
                        0 <= k < waiting.len() && #[trigger] rest[m] == waiting[k] by {
                        if m < before.1.len() {
                            assert(rest[m] == before.1[m]);
                        } else {
                            assert(rest[m] == waiting[waiting.len() - 1]);
                        }
                    }
                }
                assert(distinct_targets(rest)) by {
                    assert forall|j: int, k: int| 0 <= j < k < rest.len() implies (
                    #[trigger] rest[j]).target != (#[trigger] rest[k]).target by {
                        assert(rest[j] == before.1[j]);
                        if k < before.1.len() {
                            assert(rest[k] == before.1[k]);
                        }
                    }
                }
                assert(targets_outside(rest, middle)) by {
                    assert forall|k: int| 0 <= k < rest.len() implies !middle.contains(
                        (#[trigger] rest[k]).target,
                    ) by {
                        if k < before.1.len() {
                            assert(rest[k] == before.1[k]);
                        }
                    }
                }
                middle
            },
        }
    }
}

proof fn lemma_resolve_closed(
    table: Map<RelationKey, Seq<char>>,
    done: Set<Seq<char>>,
    waiting: Seq<ChainView>,
)
    requires
        closed(table, done),
        all_product_only(waiting),
        distinct_targets(waiting),
        targets_outside(waiting, done),
        resolve(table, waiting) is Ok,
    ensures
        commutative(resolve(table, waiting)->Ok_0),
        invertible(resolve(table, waiting)->Ok_0),
    decreases waiting.len(),
{
    if waiting.len() > 0 {
        let pass = sweep(table, waiting);
        let after = lemma_sweep_closed(table, done, waiting);
        assert(all_product_only(pass.1)) by {
            assert forall|m: int| 0 <= m < pass.1.len() implies product_only(#[trigger] pass.1[m]) by {
                let k = choose|k: int| 0 <= k < waiting.len() && pass.1[m] == waiting[k];
                assert(product_only(waiting[k]));
            }
        }
        lemma_resolve_closed(pass.0, after, pass.1);
    }
}

/// Every chain comes from a unit, and where no key is declared twice no two
/// chains define the same unit.
pub proof fn lemma_chains_of_units<F>(units: Seq<Declared<F>>)
    requires
        !has_duplicate(units),
    ensures
        distinct_targets(chains(units)),
        forall|k: int|
            0 <= k < chains(units).len() ==> exists|n: int|
                0 <= n < units.len() && (#[trigger] chains(units)[k]).target == units[n].key,
    decreases units.len(),
{
    if units.len() > 0 {
        let front = units.drop_last();
        let last = units.last();
        assert forall|n: int| 0 <= n < front.len() implies #[trigger] front[n] == units[n] by {}
        assert(!has_duplicate(front)) by {
            if has_duplicate(front) {
                let n = choose|n: int| 0 <= n < front.len() && #[trigger] repeats(front, n);
                let m = choose|m: int| 0 <= m < n && (#[trigger] front[m]).key == front[n].key;
                assert(units[m].key == units[n].key);
                assert(repeats(units, n));
            }
        }
        lemma_chains_of_units(front);
        let list = chains(units);
        let head = chains(front);
        assert forall|k: int| 0 <= k < list.len() implies exists|n: int|
            0 <= n < units.len() && (#[trigger] list[k]).target == units[n].key by {
            if k < head.len() {
                assert(list[k] == head[k]);
                let n = choose|n: int| 0 <= n < front.len() && head[k].target == front[n].key;
                assert(front[n] == units[n]);
            } else {
                assert(list[k] == chain_of(last));
                assert(units[units.len() - 1] == last);
            }
        }
        assert forall|j: int, k: int| 0 <= j < k < list.len() implies (#[trigger] list[j]).target != (
        #[trigger] list[k]).target by {
            assert(list[j] == head[j]);
            if k < head.len() {
                assert(list[k] == head[k]);
            } else {
                let n = choose|n: int| 0 <= n < front.len() && head[j].target == front[n].key;
                assert(front[n] == units[n]);
                if list[j].target == list[k].target {
                    assert(units[n].key == units[units.len() - 1].key);
                    assert(repeats(units, units.len() - 1));
                }
            }
        }
    }
}

/// Where the definitions use `*` alone, products commute: if the table gives
/// `c` for `a * b`, it gives `c` for `b * a`.
pub proof fn lemma_products_commute<F>(
    definitions: Seq<CategoryView<F>>,
    a: Seq<char>,
    b: Seq<char>,
)
    requires
        translation_rejection(definitions) is None,
        all_product_only(chains(declared(definitions))),
        derived_ops_of(declared(definitions))->Ok_0.contains_key((a, Operator::Multiply, b)),
    ensures
        ({
            let table = derived_ops_of(declared(definitions))->Ok_0;
            &&& table.contains_key((b, Operator::Multiply, a))
            &&& table[(b, Operator::Multiply, a)] == table[(a, Operator::Multiply, b)]
        }),
{
    let units = declared(definitions);
    lemma_chains_of_units(units);
    lemma_resolve_closed(Map::empty(), Set::empty(), chains(units));
}

/// Where the definitions use `*` alone, every product has its two
/// quotients: if the table gives `c` for `a * b`, it gives `b` for `c / a`
/// and `a` for `c / b`.
pub proof fn lemma_products_invert<F>(definitions: Seq<CategoryView<F>>, a: Seq<char>, b: Seq<char>)
    requires
        translation_rejection(definitions) is None,
        all_product_only(chains(declared(definitions))),
        derived_ops_of(declared(definitions))->Ok_0.contains_key((a, Operator::Multiply, b)),
    ensures
        ({
            let table = derived_ops_of(declared(definitions))->Ok_0;
            let c = table[(a, Operator::Multiply, b)];
            &&& table.contains_key((c, Operator::Divide, a))
            &&& table[(c, Operator::Divide, a)] == b
            &&& table.contains_key((c, Operator::Divide, b))
            &&& table[(c, Operator::Divide, b)] == a
        }),
{
    let units = declared(definitions);
    lemma_chains_of_units(units);
    lemma_resolve_closed(Map::empty(), Set::empty(), chains(units));
}

} // verus!
