//! The declared units as one list, and the two checks on the definitions:
//! that every category has a unit, and that no key is declared twice.

use vstd::prelude::*;
use crate::definitions::{category_view, declared, declared_in, CategoryView, Declared, UnitDefinitions};
use crate::text::same_text;

verus! {

/// One declared unit, with its category's name and base unit.
pub struct DeclaredUnit<'a, F> {
    pub category: &'a str,
    pub key: &'a str,
    pub factor: F,
    pub derived: Option<&'a str>,
    pub base: &'a str,
}

impl<'a, F> View for DeclaredUnit<'a, F> {
    type V = Declared<F>;

    open spec fn view(&self) -> Declared<F> {
        Declared {
            category: self.category@,
            key: self.key@,
            factor: self.factor,
            derived: match self.derived {
                Some(expression) => Some(expression@),
                None => None,
            },
            base: self.base@,
        }
    }
}

/// What a list of declared units holds.
pub open spec fn unit_views<'a, F>(units: Seq<DeclaredUnit<'a, F>>) -> Seq<Declared<F>> {
    Seq::new(units.len(), |n: int| units[n]@)
}

/// `c` is the first category without units.
pub open spec fn is_first_empty<F>(definitions: Seq<CategoryView<F>>, c: int) -> bool {
    &&& 0 <= c < definitions.len()
    &&& definitions[c].units.len() == 0
    &&& forall|k: int| 0 <= k < c ==> (#[trigger] definitions[k]).units.len() > 0
}

pub open spec fn has_empty_category<F>(definitions: Seq<CategoryView<F>>) -> bool {
    exists|c: int| 0 <= c < definitions.len() && (#[trigger] definitions[c]).units.len() == 0
}

/// The first category without units, where there is one.
pub open spec fn first_empty<F>(definitions: Seq<CategoryView<F>>) -> int {
    choose|c: int| is_first_empty(definitions, c)
}

pub proof fn lemma_first_empty<F>(definitions: Seq<CategoryView<F>>, c: int)
    requires
        is_first_empty(definitions, c),
    ensures
        has_empty_category(definitions),
        first_empty(definitions) == c,
{
    let d = first_empty(definitions);
    assert(is_first_empty(definitions, d));
    if d < c {
        assert(definitions[d].units.len() > 0);
    }
    if c < d {
        assert(definitions[c].units.len() > 0);
    }
}

/// Some unit before the `n`-th has the key of the `n`-th.
pub open spec fn repeats<F>(units: Seq<Declared<F>>, n: int) -> bool {
    exists|m: int| 0 <= m < n && (#[trigger] units[m]).key == units[n].key
}

/// The `n`-th unit is the first whose key was declared before it.
pub open spec fn is_first_duplicate<F>(units: Seq<Declared<F>>, n: int) -> bool {
    &&& 0 <= n < units.len()
    &&& repeats(units, n)
    &&& forall|k: int| 0 <= k < n ==> !#[trigger] repeats(units, k)
}

pub open spec fn has_duplicate<F>(units: Seq<Declared<F>>) -> bool {
    exists|n: int| 0 <= n < units.len() && #[trigger] repeats(units, n)
}

/// The first unit whose key was declared before it, where there is one.
pub open spec fn first_duplicate<F>(units: Seq<Declared<F>>) -> int {
    choose|n: int| is_first_duplicate(units, n)
}

pub proof fn lemma_first_duplicate<F>(units: Seq<Declared<F>>, n: int)
    requires
        is_first_duplicate(units, n),
    ensures
        has_duplicate(units),
        first_duplicate(units) == n,
{
    let d = first_duplicate(units);
    assert(is_first_duplicate(units, d));
    if d < n {
        assert(!repeats(units, d));
    }
    if n < d {
        assert(!repeats(units, n));
    }
}

/// Some declared unit has this key.
pub open spec fn known<F>(units: Seq<Declared<F>>, key: Seq<char>) -> bool {
    exists|n: int| 0 <= n < units.len() && (#[trigger] units[n]).key == key
}

pub proof fn lemma_declared_take<F>(definitions: Seq<CategoryView<F>>, c: int)
    requires
        0 <= c < definitions.len(),
    ensures
        declared(definitions.take(c + 1)) == declared(definitions.take(c)) + declared_in(
            definitions[c],
        ),
{
    assert(definitions.take(c + 1).drop_last() =~= definitions.take(c));
}

/// The first category without units.
pub fn find_empty_category<F>(definitions: &UnitDefinitions<F>) -> (found: Option<usize>)
    ensures
        match found {
            Some(c) => is_first_empty(definitions@, c as int) && has_empty_category(definitions@)
                && first_empty(definitions@) == c,
            None => !has_empty_category(definitions@),
        },
{
    let mut c: usize = 0;
    while c < definitions.categories.len()
        invariant
            c <= definitions.categories@.len(),
            definitions@.len() == definitions.categories@.len(),
            forall|k: int| 0 <= k < c ==> (#[trigger] definitions@[k]).units.len() > 0,
        decreases definitions.categories@.len() - c,
    {
        assert(definitions@[c as int] == category_view(definitions.categories@[c as int]));
        if definitions.categories[c].1.len() == 0 {
            proof {
                assert(is_first_empty(definitions@, c as int));
                lemma_first_empty(definitions@, c as int);
            }
            return Some(c);
        }
        c = c + 1;
    }
    None
}

/// Lists the units of all categories in order.
pub fn collect_units<'a, F: Copy>(definitions: &'a UnitDefinitions<F>) -> (units: Vec<
    DeclaredUnit<'a, F>,
>)
    ensures
        unit_views(units@) == declared(definitions@),
{
    let mut units: Vec<DeclaredUnit<'a, F>> = Vec::new();
    let mut c: usize = 0;
    proof {
        assert(unit_views(units@) =~= declared(definitions@.take(0)));
    }
    while c < definitions.categories.len()
        invariant
            c <= definitions.categories@.len(),
            definitions@.len() == definitions.categories@.len(),
            unit_views(units@) == declared(definitions@.take(c as int)),
        decreases definitions.categories@.len() - c,
    {
        let category = &definitions.categories[c];
        let ghost shown = definitions@[c as int];
        assert(shown == category_view(definitions.categories@[c as int]));
        let list = &category.1;
        let ghost before = units@;
        if list.len() > 0 {
            let base = list[0].0.as_str();
            let mut u: usize = 0;
            while u < list.len()
                invariant
                    u <= list@.len(),
                    list@.len() > 0,
                    list@ == definitions.categories@[c as int].1@,
                    shown == category_view(definitions.categories@[c as int]),
                    category.0 == definitions.categories@[c as int].0,
                    base@ == list@[0].0@,
                    unit_views(units@) == unit_views(before) + declared_in(shown).take(u as int),
                decreases list@.len() - u,
            {
                let entry = &list[u];
                let unit = DeclaredUnit {
                    category: category.0.as_str(),
                    key: entry.0.as_str(),
                    factor: entry.1.factor,
                    derived: match &entry.1.derived {
                        Some(expression) => Some(expression.as_str()),
                        None => None,
                    },
                    base,
                };
                proof {
                    assert(unit@ == declared_in(shown)[u as int]);
                    assert(unit_views(units@.push(unit)) =~= unit_views(units@).push(unit@));
                    assert(declared_in(shown).take(u as int + 1) =~= declared_in(shown).take(
                        u as int,
                    ).push(unit@));
                    assert(unit_views(units@.push(unit)) =~= unit_views(before) + declared_in(
                        shown,
                    ).take(u as int + 1));
                }
                units.push(unit);
                u = u + 1;
            }
            proof {
                assert(declared_in(shown).take(u as int) =~= declared_in(shown));
            }
        } else {
            proof {
                assert(unit_views(units@) =~= unit_views(before) + declared_in(shown));
            }
        }
        proof {
            lemma_declared_take(definitions@, c as int);
        }
        c = c + 1;
    }
    proof {
        assert(definitions@.take(c as int) =~= definitions@);
    }
    units
}

/// The first unit whose key was declared before it.
pub fn find_duplicate<'a, F>(units: &Vec<DeclaredUnit<'a, F>>) -> (found: Option<usize>)
    ensures
        match found {
            Some(n) => is_first_duplicate(unit_views(units@), n as int) && has_duplicate(
                unit_views(units@),
            ) && first_duplicate(unit_views(units@)) == n,
            None => !has_duplicate(unit_views(units@)),
        },
{
    let ghost shown = unit_views(units@);
    let mut n: usize = 0;
    while n < units.len()
        invariant
            n <= units@.len(),
            shown == unit_views(units@),
            forall|k: int| 0 <= k < n ==> !#[trigger] repeats(shown, k),
        decreases units@.len() - n,
    {
        let mut m: usize = 0;
        while m < n
            invariant
                m <= n < units@.len(),
                shown == unit_views(units@),
                forall|k: int| 0 <= k < n ==> !#[trigger] repeats(shown, k),
                forall|j: int| 0 <= j < m ==> (#[trigger] shown[j]).key != shown[n as int].key,
            decreases n - m,
        {
            if same_text(units[m].key, units[n].key) {
                proof {
                    assert(shown[m as int].key == shown[n as int].key);
                    assert(repeats(shown, n as int));
                    assert(is_first_duplicate(shown, n as int));
                    lemma_first_duplicate(shown, n as int);
                }
                return Some(n);
            }
            m = m + 1;
        }
        assert(!repeats(shown, n as int));
        n = n + 1;
    }
    None
}

/// Whether some declared unit has this key.
pub fn is_known<'a, F>(units: &Vec<DeclaredUnit<'a, F>>, key: &str) -> (found: bool)
    ensures
        found == known(unit_views(units@), key@),
{
    let ghost shown = unit_views(units@);
    let mut n: usize = 0;
    while n < units.len()
        invariant
            n <= units@.len(),
            shown == unit_views(units@),
            forall|j: int| 0 <= j < n ==> (#[trigger] shown[j]).key != key@,
        decreases units@.len() - n,
    {
        if same_text(units[n].key, key) {
            assert(shown[n as int].key == key@);
            return true;
        }
        n = n + 1;
    }
    false
}

} // verus!
