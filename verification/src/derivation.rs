//! The relations between units that the derived expressions give.
//!
//! A derived expression is a chain `unit (op unit)+`. It is read from the
//! left: the first two units combine to a unit that the table must already
//! know, that unit combines with the next, and so on; the last combination
//! is the unit being defined. A chain whose intermediate units are not yet
//! known waits until other chains have provided them.

use vstd::prelude::*;
use crate::declared::{is_known, known, unit_views, DeclaredUnit};
use crate::definitions::Declared;
use crate::error::{DefinitionError, DefinitionErrorView};
use crate::operator::{factor_operator, read_factor_operator};
use crate::tables::{register, relation_pairs, DerivedUnitMap, Relation, RelationKey};
use crate::assoc::assoc;
use crate::words::{split_words, texts, words};

verus! {

/// A derived expression split into words, with the unit that it defines.
pub struct ChainView {
    pub target: Seq<char>,
    pub words: Seq<Seq<char>>,
    pub expression: Seq<char>,
    pub category: Seq<char>,
}

/// The chain of a unit that has a derived expression.
pub open spec fn chain_of<F>(unit: Declared<F>) -> ChainView {
    ChainView {
        target: unit.key,
        words: words(unit.derived->0),
        expression: unit.derived->0,
        category: unit.category,
    }
}

/// The chains of the units that have a derived expression, in order.
pub open spec fn chains<F>(units: Seq<Declared<F>>) -> Seq<ChainView>
    decreases units.len(),
{
    if units.len() == 0 {
        Seq::empty()
    } else if units.last().derived is Some {
        chains(units.drop_last()).push(chain_of(units.last()))
    } else {
        chains(units.drop_last())
    }
}

/// The first flaw among the steps of a chain from word `i` on, which is an
/// operator: a word that is neither `*` nor `/`, or a unit that nobody declared.
pub open spec fn step_flaw<F>(units: Seq<Declared<F>>, chain: ChainView, i: int) -> Option<
    DefinitionErrorView,
>
    decreases chain.words.len() - i,
{
    if i < 1 || i + 1 >= chain.words.len() {
        None
    } else if factor_operator(chain.words[i]) is None {
        Some(DefinitionErrorView::InvalidDerivedExpression(chain.expression))
    } else if !known(units, chain.words[i + 1]) {
        Some(DefinitionErrorView::UnitNotFound(chain.words[i + 1], chain.expression, chain.category))
    } else {
        step_flaw(units, chain, i + 2)
    }
}

/// The first flaw of a chain, read from the left: fewer than three words or
/// an even number of them, a first unit that nobody declared, then the flaws
/// of its steps.
pub open spec fn chain_flaw<F>(units: Seq<Declared<F>>, chain: ChainView) -> Option<
    DefinitionErrorView,
> {
    if chain.words.len() < 3 || chain.words.len() % 2 == 0 {
        Some(DefinitionErrorView::InvalidDerivedExpression(chain.expression))
    } else if !known(units, chain.words[0]) {
        Some(DefinitionErrorView::UnitNotFound(chain.words[0], chain.expression, chain.category))
    } else {
        step_flaw(units, chain, 1)
    }
}

/// The flaw of the first flawed chain from the `k`-th on.
pub open spec fn first_flaw<F>(units: Seq<Declared<F>>, all: Seq<ChainView>, k: int) -> Option<
    DefinitionErrorView,
>
    decreases all.len() - k,
{
    if k < 0 || k >= all.len() {
        None
    } else if chain_flaw(units, all[k]) is Some {
        chain_flaw(units, all[k])
    } else {
        first_flaw(units, all, k + 1)
    }
}

/// The table after the steps of a chain from word `i` on, with `current` the
/// unit reached so far; `None` when a step before the last combines to a
/// unit that the table does not know.
pub open spec fn attempt(
    table: Map<RelationKey, Seq<char>>,
    chain: ChainView,
    i: int,
    current: Seq<char>,
) -> Option<Map<RelationKey, Seq<char>>>
    decreases chain.words.len() - i,
{
    if i < 1 || i + 1 >= chain.words.len() {
        Some(table)
    } else {
        match factor_operator(chain.words[i]) {
            None => None,
            Some(operator) => {
                let next = chain.words[i + 1];
                if i + 2 >= chain.words.len() {
                    Some(register(table, operator, current, next, chain.target))
                } else if table.contains_key((current, operator, next)) {
                    let result = table[(current, operator, next)];
                    attempt(register(table, operator, current, next, result), chain, i + 2, result)
                } else {
                    None
                }
            },
        }
    }
}

/// The table after a whole chain, or `None` when the chain has to wait.
pub open spec fn resolved(table: Map<RelationKey, Seq<char>>, chain: ChainView) -> Option<
    Map<RelationKey, Seq<char>>,
> {
    attempt(table, chain, 1, chain.words[0])
}

/// One pass over the waiting chains in order: the table after it, and the
/// chains that still wait. A chain that cannot be resolved leaves the table
/// as it was.
pub open spec fn sweep(table: Map<RelationKey, Seq<char>>, waiting: Seq<ChainView>) -> (
    Map<RelationKey, Seq<char>>,
    Seq<ChainView>,
)
    decreases waiting.len(),
{
    if waiting.len() == 0 {
        (table, Seq::empty())
    } else {
        let before = sweep(table, waiting.drop_last());
        match resolved(before.0, waiting.last()) {
            Some(after) => (after, before.1),
            None => (before.0, before.1.push(waiting.last())),
        }
    }
}

/// Passes over the waiting chains until none waits, or until a pass resolves
/// none: then the first chain that still waits is returned.
pub open spec fn resolve(table: Map<RelationKey, Seq<char>>, waiting: Seq<ChainView>) -> Result<
    Map<RelationKey, Seq<char>>,
    ChainView,
>
    decreases waiting.len(),
{
    if waiting.len() == 0 {
        Ok(table)
    } else {
        let pass = sweep(table, waiting);
        if pass.1.len() < waiting.len() {
            resolve(pass.0, pass.1)
        } else {
            Err(waiting[0])
        }
    }
}

/// The relations that the derived expressions of `units` give, or the reason
/// why they give none: the first flaw of the first flawed chain, else the
/// first chain that can never be resolved.
pub open spec fn derived_ops_of<F>(units: Seq<Declared<F>>) -> Result<
    Map<RelationKey, Seq<char>>,
    DefinitionErrorView,
> {
    match first_flaw(units, chains(units), 0) {
        Some(flaw) => Err(flaw),
        None => match resolve(Map::empty(), chains(units)) {
            Ok(table) => Ok(table),
            Err(chain) => Err(DefinitionErrorView::InvalidDerivedExpression(chain.expression)),
        },
    }
}

/// The table that a list of relations stands for.
pub open spec fn assoc_of(entries: Seq<Relation>) -> Map<RelationKey, Seq<char>> {
    assoc(relation_pairs(entries))
}

/// A derived expression split into words, with the unit that it defines.
pub struct Chain<'a> {
    pub target: &'a str,
    pub words: Vec<&'a str>,
    pub expression: &'a str,
    pub category: &'a str,
}

impl<'a> View for Chain<'a> {
    type V = ChainView;

    open spec fn view(&self) -> ChainView {
        ChainView {
            target: self.target@,
            words: texts(self.words@),
            expression: self.expression@,
            category: self.category@,
        }
    }
}

/// What a list of chains holds.
pub open spec fn chain_views<'a>(list: Seq<Chain<'a>>) -> Seq<ChainView> {
    Seq::new(list.len(), |k: int| list[k]@)
}

/// The chains that a list of positions picks.
pub open spec fn picked(all: Seq<ChainView>, positions: Seq<usize>) -> Seq<ChainView> {
    Seq::new(positions.len(), |k: int| all[positions[k] as int])
}

/// The chains of the units that have a derived expression, in order.
pub fn collect_chains<'a, F>(units: &Vec<DeclaredUnit<'a, F>>) -> (list: Vec<Chain<'a>>)
    ensures
        chain_views(list@) == chains(unit_views(units@)),
{
    let ghost shown = unit_views(units@);
    let mut list: Vec<Chain<'a>> = Vec::new();
    let mut n: usize = 0;
    proof {
        assert(chain_views(list@) =~= chains(shown.take(0)));
    }
    while n < units.len()
        invariant
            n <= units@.len(),
            shown == unit_views(units@),
            chain_views(list@) == chains(shown.take(n as int)),
        decreases units@.len() - n,
    {
        let unit = &units[n];
        proof {
            assert(shown.take(n as int + 1).drop_last() =~= shown.take(n as int));
            assert(shown.take(n as int + 1).last() == unit@);
        }
        match unit.derived {
            Some(expression) => {
                let chain = Chain {
                    target: unit.key,
                    words: split_words(expression),
                    expression,
                    category: unit.category,
                };
                proof {
                    assert(chain@ == chain_of(unit@));
                    assert(chain_views(list@.push(chain)) =~= chain_views(list@).push(chain@));
                }
                list.push(chain);
            },
            None => {},
        }
        n = n + 1;
    }
    proof {
        assert(shown.take(n as int) =~= shown);
    }
    list
}

/// The first flaw of a chain.
pub fn check_chain<'a, F>(units: &Vec<DeclaredUnit<'a, F>>, chain: &Chain<'a>) -> (flaw: Option<
    DefinitionError,
>)
    ensures
        match flaw {
            Some(error) => chain_flaw(unit_views(units@), chain@) == Some(error@),
            None => chain_flaw(unit_views(units@), chain@) is None,
        },
{
    let ghost shown = unit_views(units@);
    let count: usize = chain.words.len();
    if count < 3 || count % 2 == 0 {
        return Some(DefinitionError::InvalidDerivedExpression(chain.expression.to_owned()));
    }
    if !is_known(units, chain.words[0]) {
        return Some(
            DefinitionError::UnitNotFound(
                chain.words[0].to_owned(),
                chain.expression.to_owned(),
                chain.category.to_owned(),
            ),
        );
    }
    let mut i: usize = 1;
    while i < count - 1
        invariant
            1 <= i <= count,
            count >= 3,
            count == chain.words@.len(),
            count == chain@.words.len(),
            shown == unit_views(units@),
            chain_flaw(shown, chain@) == step_flaw(shown, chain@, i as int),
        decreases count - i,
    {
        if read_factor_operator(chain.words[i]).is_none() {
            return Some(DefinitionError::InvalidDerivedExpression(chain.expression.to_owned()));
        }
        if !is_known(units, chain.words[i + 1]) {
            return Some(
                DefinitionError::UnitNotFound(
                    chain.words[i + 1].to_owned(),
                    chain.expression.to_owned(),
                    chain.category.to_owned(),
                ),
            );
        }
        i = i + 2;
    }
    None
}

/// The flaw of the first flawed chain.
pub fn check_chains<'a, F>(units: &Vec<DeclaredUnit<'a, F>>, all: &Vec<Chain<'a>>) -> (flaw: Option<
    DefinitionError,
>)
    ensures
        match flaw {
            Some(error) => first_flaw(unit_views(units@), chain_views(all@), 0) == Some(error@),
            None => first_flaw(unit_views(units@), chain_views(all@), 0) is None && forall|k: int|
                0 <= k < all@.len() ==> chain_flaw(
                    unit_views(units@),
                    #[trigger] chain_views(all@)[k],
                ) is None,
        },
{
    let ghost shown = unit_views(units@);
    let ghost views = chain_views(all@);
    let mut k: usize = 0;
    while k < all.len()
        invariant
            k <= all@.len(),
            shown == unit_views(units@),
            views == chain_views(all@),
            first_flaw(shown, views, 0) == first_flaw(shown, views, k as int),
            forall|j: int| 0 <= j < k ==> chain_flaw(shown, #[trigger] views[j]) is None,
        decreases all@.len() - k,
    {
        let flaw = check_chain(units, &all[k]);
        if flaw.is_some() {
            return flaw;
        }
        k = k + 1;
    }
    None
}

/// Takes the steps of a chain, and leaves the table as it was when the chain
/// has to wait.
pub fn attempt_chain<'a>(table: &mut DerivedUnitMap, chain: &Chain<'a>) -> (done: bool)
    ensures
        match resolved(old(table)@, chain@) {
            Some(after) => done && final(table)@ == after,
            None => !done && final(table)@ == old(table)@,
        },
{
    let count: usize = chain.words.len();
    if count < 3 {
        return true;
    }
    let mark: usize = table.entries.len();
    let ghost kept = table.entries@;
    let ghost first = table@;
    let mut current: String = chain.words[0].to_owned();
    let mut i: usize = 1;
    proof {
        table.lemma_entries();
    }
    while i < count - 1
        invariant
            count >= 3,
            count == chain.words@.len(),
            count == chain@.words.len(),
            1 <= i <= count,
            mark == kept.len(),
            table.entries@.len() >= mark,
            table.entries@.take(mark as int) == kept,
            first == assoc_of(kept),
            first == old(table)@,
            resolved(first, chain@) == attempt(table@, chain@, i as int, current@),
        decreases count - i,
    {
        let next = chain.words[i + 1];
        assert(chain@.words[i as int] == chain.words@[i as int]@);
        assert(chain@.words[i as int + 1] == next@);
        let operator = match read_factor_operator(chain.words[i]) {
            Some(operator) => operator,
            None => {
                table.entries.truncate(mark);
                proof {
                    assert(table.entries@ =~= kept);
                    table.lemma_entries();
                }
                return false;
            },
        };
        if i + 2 >= count {
            table.register(operator, current.as_str(), next, chain.target);
        } else {
            let found: Option<String> = match table.lookup(current.as_str(), operator, next) {
                Some(unit) => Some(unit.clone()),
                None => None,
            };
            match found {
                Some(result) => {
                    table.register(operator, current.as_str(), next, result.as_str());
                    current = result;
                },
                None => {
                    table.entries.truncate(mark);
                    proof {
                        assert(table.entries@ =~= kept);
                        table.lemma_entries();
                    }
                    return false;
                },
            }
        }
        proof {
            assert(table.entries@.take(mark as int) =~= kept);
        }
        i = i + 2;
    }
    true
}

/// One pass over the waiting chains, in order: resolves those that can be
/// resolved and returns the positions of those that still wait.
pub(crate) fn sweep_chains<'a>(table: &mut DerivedUnitMap, all: &Vec<Chain<'a>>, waiting: &Vec<usize>) -> (rest:
    Vec<usize>)
    requires
        forall|k: int| 0 <= k < waiting@.len() ==> (#[trigger] waiting@[k]) < all@.len(),
    ensures
        sweep(old(table)@, picked(chain_views(all@), waiting@)) == (
            final(table)@,
            picked(chain_views(all@), rest@),
        ),
        rest@.len() <= waiting@.len(),
        forall|k: int| 0 <= k < rest@.len() ==> (#[trigger] rest@[k]) < all@.len(),
        rest@.len() == waiting@.len() ==> rest@ == waiting@,
{
    let ghost views = chain_views(all@);
    let ghost first = table@;
    let mut rest: Vec<usize> = Vec::new();
    let mut k: usize = 0;
    proof {
        assert(picked(views, waiting@.take(0)) =~= Seq::empty());
        assert(picked(views, rest@) =~= Seq::empty());
    }
    while k < waiting.len()
        invariant
            k <= waiting@.len(),
            views == chain_views(all@),
            first == old(table)@,
            forall|j: int| 0 <= j < waiting@.len() ==> (#[trigger] waiting@[j]) < all@.len(),
            forall|j: int| 0 <= j < rest@.len() ==> (#[trigger] rest@[j]) < all@.len(),
            rest@.len() <= k,
            rest@.len() == k ==> rest@ == waiting@.take(k as int),
            sweep(first, picked(views, waiting@.take(k as int))) == (table@, picked(views, rest@)),
        decreases waiting@.len() - k,
    {
        let position: usize = waiting[k];
        proof {
            let upto = picked(views, waiting@.take(k as int + 1));
            assert(upto.drop_last() =~= picked(views, waiting@.take(k as int)));
            assert(upto.last() == views[position as int]);
            assert(views[position as int] == all@[position as int]@);
        }
        let done = attempt_chain(table, &all[position]);
        if !done {
            proof {
                assert(picked(views, rest@.push(position)) =~= picked(views, rest@).push(
                    views[position as int],
                ));
                if rest@.len() == k {
                    assert(rest@.push(position) =~= waiting@.take(k as int + 1));
                }
            }
            rest.push(position);
        }
        k = k + 1;
    }
    proof {
        assert(waiting@.take(k as int) =~= waiting@);
    }
    rest
}

/// Passes over the chains until all are resolved or a pass resolves none;
/// then returns the position of the first chain that still waits.
pub fn resolve_chains<'a>(table: &mut DerivedUnitMap, all: &Vec<Chain<'a>>) -> (stuck: Option<usize>)
    ensures
        match resolve(old(table)@, chain_views(all@)) {
            Ok(after) => stuck is None && final(table)@ == after,
            Err(chain) => stuck is Some && stuck->0 < all@.len() && all@[stuck->0 as int]@ == chain,
        },
{
    let ghost views = chain_views(all@);
    let mut waiting: Vec<usize> = Vec::new();
    let mut n: usize = 0;
    while n < all.len()
        invariant
            n <= all@.len(),
            waiting@.len() == n,
            forall|j: int| 0 <= j < n ==> (#[trigger] waiting@[j]) == j,
        decreases all@.len() - n,
    {
        waiting.push(n);
        n = n + 1;
    }
    proof {
        assert(picked(views, waiting@) =~= views);
    }
    while waiting.len() > 0
        invariant
            views == chain_views(all@),
            forall|j: int| 0 <= j < waiting@.len() ==> (#[trigger] waiting@[j]) < all@.len(),
            resolve(old(table)@, views) == resolve(table@, picked(views, waiting@)),
        decreases waiting@.len(),
    {
        let rest = sweep_chains(table, all, &waiting);
        if rest.len() < waiting.len() {
            waiting = rest;
        } else {
            return Some(waiting[0]);
        }
    }
    None
}

/// Builds the table of relations from the derived expressions of `units`.
pub fn derive_relations<'a, F>(units: &Vec<DeclaredUnit<'a, F>>) -> (outcome: Result<
    DerivedUnitMap,
    DefinitionError,
>)
    ensures
        match outcome {
            Ok(table) => derived_ops_of(unit_views(units@)) == Ok::<_, DefinitionErrorView>(table@),
            Err(error) => derived_ops_of(unit_views(units@)) == Err::<
                Map<RelationKey, Seq<char>>,
                _,
            >(error@),
        },
{
    let all = collect_chains(units);
    match check_chains(units, &all) {
        Some(flaw) => {
            return Err(flaw);
        },
        None => {},
    }
    let mut table = DerivedUnitMap::new();
    match resolve_chains(&mut table, &all) {
        None => Ok(table),
        Some(position) => Err(
            DefinitionError::InvalidDerivedExpression(all[position].expression.to_owned()),
        ),
    }
}

} // verus!
