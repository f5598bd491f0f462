//! The declared units: categories in the order they were declared, each with
//! its units in the order they were declared.

use vstd::prelude::*;
use crate::text::same_text;

verus! {

/// One declared unit.
///
/// `factor` is the ratio by which a quantity in this unit is multiplied to
/// express it in the base unit of its category. The library never computes
/// with it: it hands it back in the steps of an evaluation, so the number type
/// `F` is the caller's choice.
#[derive(Debug, Clone)]
pub struct UnitDefinition<F> {
    pub name: String,
    pub symbol: String,
    pub factor: F,
    /// A chain `unit (op unit)+` with `op` one of `*` and `/`, for a unit that
    /// is the product or quotient of others.
    pub derived: Option<String>,
}

/// The categories with their units, each unit under its key.
///
/// The first unit of a category is the base unit of that category.
#[derive(Debug, Clone)]
pub struct UnitDefinitions<F> {
    pub categories: Vec<(String, Vec<(String, UnitDefinition<F>)>)>,
}

/// A declared unit as the contracts see it.
pub struct UnitView<F> {
    pub key: Seq<char>,
    pub name: Seq<char>,
    pub symbol: Seq<char>,
    pub factor: F,
    pub derived: Option<Seq<char>>,
}

/// A category as the contracts see it.
pub struct CategoryView<F> {
    pub name: Seq<char>,
    pub units: Seq<UnitView<F>>,
}

/// A unit together with what its category gives it: the category's name and
/// the key of the category's base unit.
pub struct Declared<F> {
    pub category: Seq<char>,
    pub key: Seq<char>,
    pub factor: F,
    pub derived: Option<Seq<char>>,
    pub base: Seq<char>,
}

pub open spec fn text_of(s: Option<String>) -> Option<Seq<char>> {
    match s {
        Some(t) => Some(t@),
        None => None,
    }
}

pub open spec fn unit_view<F>(entry: (String, UnitDefinition<F>)) -> UnitView<F> {
    UnitView {
        key: entry.0@,
        name: entry.1.name@,
        symbol: entry.1.symbol@,
        factor: entry.1.factor,
        derived: text_of(entry.1.derived),
    }
}

pub open spec fn category_view<F>(category: (String, Vec<(String, UnitDefinition<F>)>)) -> CategoryView<
    F,
> {
    CategoryView {
        name: category.0@,
        units: Seq::new(category.1@.len(), |u: int| unit_view(category.1@[u])),
    }
}

/// What a list of categories holds.
pub open spec fn category_views<F>(list: Seq<(String, Vec<(String, UnitDefinition<F>)>)>) -> Seq<
    CategoryView<F>,
> {
    Seq::new(list.len(), |c: int| category_view(list[c]))
}

impl<F> View for UnitDefinitions<F> {
    type V = Seq<CategoryView<F>>;

    open spec fn view(&self) -> Seq<CategoryView<F>> {
        category_views(self.categories@)
    }
}

impl<F> Default for UnitDefinitions<F> {
    /// No category at all.
    fn default() -> (definitions: Self)
        ensures
            definitions@ == Seq::<CategoryView<F>>::empty(),
    {
        let definitions = UnitDefinitions { categories: Vec::new() };
        assert(definitions@ =~= Seq::<CategoryView<F>>::empty());
        definitions
    }
}

/// The units of one category, in order.
pub open spec fn declared_in<F>(category: CategoryView<F>) -> Seq<Declared<F>> {
    Seq::new(
        category.units.len(),
        |u: int|
            Declared {
                category: category.name,
                key: category.units[u].key,
                factor: category.units[u].factor,
                derived: category.units[u].derived,
                base: category.units[0].key,
            },
    )
}

/// All units, category after category, in order.
pub open spec fn declared<F>(definitions: Seq<CategoryView<F>>) -> Seq<Declared<F>>
    decreases definitions.len(),
{
    if definitions.len() == 0 {
        Seq::empty()
    } else {
        declared(definitions.drop_last()) + declared_in(definitions.last())
    }
}

/// The `i`-th category is the first with this name.
pub open spec fn first_named<F>(list: Seq<CategoryView<F>>, name: Seq<char>, i: int) -> bool {
    &&& 0 <= i < list.len()
    &&& list[i].name == name
    &&& forall|j: int| 0 <= j < i ==> (#[trigger] list[j]).name != name
}

pub open spec fn has_category<F>(list: Seq<CategoryView<F>>, name: Seq<char>) -> bool {
    exists|i: int| 0 <= i < list.len() && (#[trigger] list[i]).name == name
}

/// The place of the first category with this name, where there is one.
pub open spec fn place_of<F>(list: Seq<CategoryView<F>>, name: Seq<char>) -> int {
    choose|i: int| first_named(list, name, i)
}

/// The list with one more category: it takes the place of the first
/// category of its name, or comes last where the name is new.
pub open spec fn put<F>(list: Seq<CategoryView<F>>, category: CategoryView<F>) -> Seq<
    CategoryView<F>,
> {
    if has_category(list, category.name) {
        list.update(place_of(list, category.name), category)
    } else {
        list.push(category)
    }
}

/// The list with the categories of `other` put into it, one after the other.
pub open spec fn merged<F>(list: Seq<CategoryView<F>>, other: Seq<CategoryView<F>>) -> Seq<
    CategoryView<F>,
>
    decreases other.len(),
{
    if other.len() == 0 {
        list
    } else {
        put(merged(list, other.drop_last()), other.last())
    }
}

pub proof fn lemma_first_named<F>(list: Seq<CategoryView<F>>, name: Seq<char>, i: int)
    requires
        first_named(list, name, i),
    ensures
        has_category(list, name),
        place_of(list, name) == i,
{
    let p = place_of(list, name);
    assert(first_named(list, name, p));
    if p < i {
        assert(list[p].name != name);
    }
    if i < p {
        assert(list[i].name != name);
    }
}

/// The place of the first category with this name.
pub fn find_category<F>(definitions: &UnitDefinitions<F>, name: &str) -> (found: Option<usize>)
    ensures
        match found {
            Some(i) => first_named(definitions@, name@, i as int),
            None => !has_category(definitions@, name@),
        },
{
    let mut i: usize = 0;
    while i < definitions.categories.len()
        invariant
            i <= definitions.categories@.len(),
            definitions@.len() == definitions.categories@.len(),
            forall|j: int| 0 <= j < i ==> (#[trigger] definitions@[j]).name != name@,
        decreases definitions.categories@.len() - i,
    {
        assert(definitions@[i as int] == category_view(definitions.categories@[i as int]));
        if same_text(definitions.categories[i].0.as_str(), name) {
            return Some(i);
        }
        i = i + 1;
    }
    None
}

/// Puts the categories of `other` into `definitions`, one after the other:
/// a category whose name is there already replaces the first of that name,
/// and the others are added at the end.
pub fn merge<F>(definitions: &mut UnitDefinitions<F>, other: UnitDefinitions<F>)
    ensures
        final(definitions)@ == merged(old(definitions)@, other@),
{
    let ghost all = other@;
    let ghost mut done: int = 0;
    let mut rest = other.categories;
    proof {
        assert(all.take(0) =~= Seq::empty());
        assert(all.skip(0) =~= all);
    }
    while rest.len() > 0
        invariant
            0 <= done <= all.len(),
            category_views(rest@) == all.skip(done),
            definitions@ == merged(old(definitions)@, all.take(done)),
        decreases rest@.len(),
    {
        let ghost before = rest@;
        let category = rest.remove(0);
        proof {
            assert(category_views(before).len() == before.len());
            assert(all.skip(done).len() == all.len() - done);
            assert(category_views(before)[0] == category_view(category));
            assert(all.skip(done)[0] == all[done]);
            assert forall|c: int| 0 <= c < rest@.len() implies category_views(rest@)[c] == all.skip(
                done + 1,
            )[c] by {
                assert(rest@[c] == before[c + 1]);
                assert(category_views(before)[c + 1] == all.skip(done)[c + 1]);
            }
            assert(category_views(rest@) =~= all.skip(done + 1));
            assert(all.take(done + 1).drop_last() =~= all.take(done));
            assert(all.take(done + 1).last() == category_view(category));
        }
        match find_category(definitions, category.0.as_str()) {
            Some(i) => {
                proof {
                    lemma_first_named(definitions@, category.0@, i as int);
                    assert(category_views(definitions.categories@.update(i as int, category))
                        =~= definitions@.update(i as int, category_view(category)));
                }
                definitions.categories.set(i, category);
            },
            None => {
                proof {
                    assert(category_views(definitions.categories@.push(category))
                        =~= definitions@.push(category_view(category)));
                }
                definitions.categories.push(category);
            },
        }
        proof {
            done = done + 1;
        }
    }
    proof {
        assert(all.take(done) =~= all);
    }
}

} // verus!
