//! The unit table: built once from the definitions, read-only afterwards.

use vstd::prelude::*;
use crate::assoc::{assoc, lemma_assoc_distinct, lemma_assoc_push};
use crate::declared::{collect_units, find_duplicate, find_empty_category, first_duplicate, first_empty, has_duplicate, has_empty_category, repeats, unit_views, DeclaredUnit};
use crate::definitions::{declared, declared_in, CategoryView, Declared, UnitDefinitions};
use crate::derivation::{derive_relations, derived_ops_of};
use crate::error::{DefinitionError, DefinitionErrorView};
use crate::tables::{BaseUnitMap, DerivedUnitMap, RelationKey};

verus! {

/// The entries of the table of base units, one for each declared unit.
pub open spec fn base_entries<F>(units: Seq<Declared<F>>) -> Seq<(Seq<char>, (F, Seq<char>))> {
    Seq::new(units.len(), |n: int| (units[n].key, (units[n].factor, units[n].base)))
}

/// The table of base units: each unit's key leads to the unit's factor and
/// to the first unit of the unit's category.
pub open spec fn base_units_of<F>(units: Seq<Declared<F>>) -> Map<Seq<char>, (F, Seq<char>)> {
    assoc(base_entries(units))
}

/// Why the definitions give no table of relations, or `None` where they
/// give one: a key that is declared twice, then what is wrong with the
/// derived expressions.
pub open spec fn translation_rejection<F>(definitions: Seq<CategoryView<F>>) -> Option<
    DefinitionErrorView,
> {
    let units = declared(definitions);
    if has_duplicate(units) {
        Some(
            DefinitionErrorView::DuplicatedUnit(
                units[first_duplicate(units)].key,
                units[first_duplicate(units)].category,
            ),
        )
    } else {
        match derived_ops_of(units) {
            Err(error) => Some(error),
            Ok(_) => None,
        }
    }
}

/// Why no unit table can be built from these definitions, or `None` where
/// one can.
///
/// A category without units comes first, then a key that is declared twice,
/// then what is wrong with the derived expressions.
pub open spec fn rejection<F>(definitions: Seq<CategoryView<F>>) -> Option<DefinitionErrorView> {
    if has_empty_category(definitions) {
        Some(DefinitionErrorView::NoUnitDefined(definitions[first_empty(definitions)].name))
    } else {
        translation_rejection(definitions)
    }
}

/// The tables that answer what a unit's base unit is and what the product or
/// quotient of two units is.
#[derive(Debug)]
pub struct UnitTable<'a, F> {
    unit_definitions: &'a UnitDefinitions<F>,
    derived_units_map: DerivedUnitMap,
    base_units_map: BaseUnitMap<F>,
}

impl<'a, F: Copy> UnitTable<'a, F> {
    /// The definitions that the table was built from.
    pub closed spec fn source(&self) -> Seq<CategoryView<F>> {
        self.unit_definitions@
    }

    /// Unit key to factor and base unit key.
    pub closed spec fn base_units(&self) -> Map<Seq<char>, (F, Seq<char>)> {
        self.base_units_map@
    }

    /// Left unit, operator and right unit to the unit of the result.
    pub closed spec fn derived_ops(&self) -> Map<RelationKey, Seq<char>> {
        self.derived_units_map@
    }

    /// Builds the table, or says why the definitions are refused.
    pub fn new(unit_definitions: &'a UnitDefinitions<F>) -> (outcome: Result<Self, DefinitionError>)
        ensures
            match outcome {
                Ok(table) => {
                    &&& rejection(unit_definitions@) is None
                    &&& table.source() == unit_definitions@
                    &&& table.base_units() == base_units_of(declared(unit_definitions@))
                    &&& derived_ops_of(declared(unit_definitions@)) == Ok::<_, DefinitionErrorView>(
                        table.derived_ops(),
                    )
                },
                Err(error) => rejection(unit_definitions@) == Some(error@),
            },
    {
        let base_units_map = match construct_base_units_map(unit_definitions) {
            Ok(table) => table,
            Err(error) => {
                return Err(error);
            },
        };
        let derived_units_map = match construct_unit_translation_map(unit_definitions) {
            Ok(table) => table,
            Err(error) => {
                return Err(error);
            },
        };
        Ok(UnitTable { unit_definitions, derived_units_map, base_units_map })
    }

    /// The definitions that the table was built from.
    pub fn unit_definitions(&self) -> (definitions: &'a UnitDefinitions<F>)
        ensures
            definitions@ == self.source(),
    {
        self.unit_definitions
    }

    /// The table of products and quotients.
    pub fn derived_units_map(&self) -> (table: &DerivedUnitMap)
        ensures
            table@ == self.derived_ops(),
    {
        &self.derived_units_map
    }

    /// The table of base units.
    pub fn base_units_map(&self) -> (table: &BaseUnitMap<F>)
        ensures
            table@ == self.base_units(),
    {
        &self.base_units_map
    }
}

/// Builds the table of relations between units: refuses a key that is
/// declared twice, then reads the derived expressions.
pub fn construct_unit_translation_map<F: Copy>(definitions: &UnitDefinitions<F>) -> (outcome: Result<
    DerivedUnitMap,
    DefinitionError,
>)
    ensures
        match outcome {
            Ok(table) => translation_rejection(definitions@) is None && derived_ops_of(
                declared(definitions@),
            ) == Ok::<_, DefinitionErrorView>(table@),
            Err(error) => translation_rejection(definitions@) == Some(error@),
        },
{
    let units = collect_units(definitions);
    match find_duplicate(&units) {
        Some(n) => {
            return Err(
                DefinitionError::DuplicatedUnit(
                    units[n].key.to_owned(),
                    units[n].category.to_owned(),
                ),
            );
        },
        None => {},
    }
    derive_relations(&units)
}

/// Builds the table of base units: refuses a category without units, then
/// lists every unit with its factor and the first unit of its category.
pub fn construct_base_units_map<F: Copy>(definitions: &UnitDefinitions<F>) -> (outcome: Result<
    BaseUnitMap<F>,
    DefinitionError,
>)
    ensures
        match outcome {
            Ok(table) => !has_empty_category(definitions@) && table@ == base_units_of(
                declared(definitions@),
            ),
            Err(error) => has_empty_category(definitions@) && error@
                == DefinitionErrorView::NoUnitDefined(
                definitions@[first_empty(definitions@)].name,
            ),
        },
{
    match find_empty_category(definitions) {
        Some(c) => {
            return Err(DefinitionError::NoUnitDefined(definitions.categories[c].0.clone()));
        },
        None => {},
    }
    let units = collect_units(definitions);
    Ok(list_base_units(&units))
}

/// Lists every unit with its factor and the base unit of its category.
fn list_base_units<'a, F: Copy>(units: &Vec<DeclaredUnit<'a, F>>) -> (table: BaseUnitMap<F>)
    ensures
        table@ == base_units_of(unit_views(units@)),
{
    let ghost shown = unit_views(units@);
    let mut table: BaseUnitMap<F> = BaseUnitMap::new();
    let mut n: usize = 0;
    proof {
        assert(base_entries(shown.take(0)) =~= Seq::empty());
    }
    while n < units.len()
        invariant
            n <= units@.len(),
            shown == unit_views(units@),
            table@ == base_units_of(shown.take(n as int)),
        decreases units@.len() - n,
    {
        let unit = &units[n];
        proof {
            let entry = (unit@.key, (unit@.factor, unit@.base));
            assert(base_entries(shown.take(n as int + 1)) =~= base_entries(
                shown.take(n as int),
            ).push(entry));
            lemma_assoc_push(base_entries(shown.take(n as int)), entry.0, entry.1);
        }
        table.record(unit.key, unit.factor, unit.base);
        n = n + 1;
    }
    proof {
        assert(shown.take(n as int) =~= shown);
    }
    table
}

/// The number of units in the categories before the `c`-th.
pub open spec fn units_before<F>(definitions: Seq<CategoryView<F>>, c: int) -> int {
    declared(definitions.take(c)).len() as int
}

/// Where the `u`-th unit of the `c`-th category stands in the list of all units.
pub proof fn lemma_declared_at<F>(definitions: Seq<CategoryView<F>>, c: int, u: int)
    requires
        0 <= c < definitions.len(),
        0 <= u < definitions[c].units.len(),
    ensures
        0 <= units_before(definitions, c) + u < declared(definitions).len(),
        declared(definitions)[units_before(definitions, c) + u] == declared_in(definitions[c])[u],
    decreases definitions.len(),
{
    let front = definitions.drop_last();
    if c == definitions.len() - 1 {
        assert(definitions.take(c) =~= front);
    } else {
        lemma_declared_at(front, c, u);
        assert(front.take(c) =~= definitions.take(c));
        assert(front[c] == definitions[c]);
    }
}

/// Every declared unit stands in the table of base units, with its own
/// factor and the first unit of its category.
pub proof fn lemma_base_units_entry<F>(definitions: Seq<CategoryView<F>>, c: int, u: int)
    requires
        rejection(definitions) is None,
        0 <= c < definitions.len(),
        0 <= u < definitions[c].units.len(),
    ensures
        base_units_of(declared(definitions)).contains_key(definitions[c].units[u].key),
        base_units_of(declared(definitions))[definitions[c].units[u].key] == (
            definitions[c].units[u].factor,
            definitions[c].units[0].key,
        ),
{
    let units = declared(definitions);
    let entries = base_entries(units);
    let n = units_before(definitions, c) + u;
    lemma_declared_at(definitions, c, u);
    assert forall|a: int, b: int| 0 <= a < b < entries.len() implies (#[trigger] entries[a]).0 != (
    #[trigger] entries[b]).0 by {
        if units[a].key == units[b].key {
            assert(repeats(units, b));
        }
    }
    lemma_assoc_distinct(entries, n);
}

/// The base unit of a category is its own base unit: where the first unit of
/// a category is declared with the factor `one`, the table of base units
/// gives `(one, that unit)` for it.
pub proof fn lemma_base_unit_reflexive<F>(definitions: Seq<CategoryView<F>>, c: int, one: F)
    requires
        rejection(definitions) is None,
        0 <= c < definitions.len(),
        definitions[c].units[0].factor == one,
    ensures
        base_units_of(declared(definitions)).contains_key(definitions[c].units[0].key),
        base_units_of(declared(definitions))[definitions[c].units[0].key] == (
            one,
            definitions[c].units[0].key,
        ),
{
    assert(!has_empty_category(definitions));
    lemma_base_units_entry(definitions, c, 0);
}

/// Every unit in the list of all units is a unit of some category.
pub proof fn lemma_declared_from<F>(definitions: Seq<CategoryView<F>>, n: int) -> (place: (int, int))
    requires
        0 <= n < declared(definitions).len(),
    ensures
        0 <= place.0 < definitions.len(),
        0 <= place.1 < definitions[place.0].units.len(),
        declared(definitions)[n] == declared_in(definitions[place.0])[place.1],
    decreases definitions.len(),
{
    let front = definitions.drop_last();
    if n < declared(front).len() {
        let place = lemma_declared_from(front, n);
        assert(front[place.0] == definitions[place.0]);
        place
    } else {
        (definitions.len() - 1, n - declared(front).len())
    }
}

/// The base unit of a unit is a base unit: whatever unit the table of base
/// units gives for a key, it gives that unit for that unit.
pub proof fn lemma_base_units_are_bases<F>(definitions: Seq<CategoryView<F>>, key: Seq<char>)
    requires
        rejection(definitions) is None,
        base_units_of(declared(definitions)).contains_key(key),
    ensures
        ({
            let table = base_units_of(declared(definitions));
            &&& table.contains_key(table[key].1)
            &&& table[table[key].1].1 == table[key].1
        }),
{
    let units = declared(definitions);
    let entries = base_entries(units);
    crate::assoc::lemma_assoc_contains(entries, key);
    let n = choose|n: int| 0 <= n < entries.len() && (#[trigger] entries[n]).0 == key;
    let place = lemma_declared_from(definitions, n);
    assert(!has_empty_category(definitions));
    lemma_base_units_entry(definitions, place.0, place.1);
    lemma_base_units_entry(definitions, place.0, 0);
}

} // verus!
