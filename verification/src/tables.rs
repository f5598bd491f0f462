//! The two lookup tables of a unit table.

use vstd::prelude::*;
use crate::assoc::{assoc, lemma_assoc_contains, lemma_assoc_last, lemma_assoc_push};
use crate::operator::{factor_operator, read_factor_operator, Operator};
use crate::text::same_text;

verus! {

/// The key of a relation between units: left unit, operator, right unit.
pub type RelationKey = (Seq<char>, Operator, Seq<char>);

/// What the relation `result = left operator right` adds to a table of
/// relations: the relation itself and those that follow from it.
///
/// A product `r = a * b` gives `a * b = r`, `b * a = r`, `r / a = b` and
/// `r / b = a`; a quotient `r = a / b` gives `a / b = r`, `a / r = b` and
/// `r * b = a`. An entry that was there under one of these keys is replaced.
/// No other operator relates units.
pub open spec fn register(
    table: Map<RelationKey, Seq<char>>,
    operator: Operator,
    left: Seq<char>,
    right: Seq<char>,
    result: Seq<char>,
) -> Map<RelationKey, Seq<char>> {
    if operator == Operator::Multiply {
        table.insert((left, Operator::Multiply, right), result).insert(
            (right, Operator::Multiply, left),
            result,
        ).insert((result, Operator::Divide, left), right).insert(
            (result, Operator::Divide, right),
            left,
        )
    } else if operator == Operator::Divide {
        table.insert((left, Operator::Divide, right), result).insert(
            (left, Operator::Divide, result),
            right,
        ).insert((result, Operator::Multiply, right), left)
    } else {
        table
    }
}

/// One relation between units.
#[derive(Debug)]
pub struct Relation {
    pub left: String,
    pub operator: Operator,
    pub right: String,
    pub result: String,
}

impl Relation {
    pub open spec fn pair(self) -> (RelationKey, Seq<char>) {
        ((self.left@, self.operator, self.right@), self.result@)
    }
}

pub open spec fn relation_pairs(entries: Seq<Relation>) -> Seq<(RelationKey, Seq<char>)> {
    Seq::new(entries.len(), |i: int| entries[i].pair())
}

/// The relations between units: which unit a product or a quotient of two
/// units is.
#[derive(Debug)]
pub struct DerivedUnitMap {
    pub(crate) entries: Vec<Relation>,
}

impl View for DerivedUnitMap {
    type V = Map<RelationKey, Seq<char>>;

    closed spec fn view(&self) -> Map<RelationKey, Seq<char>> {
        assoc(relation_pairs(self.entries@))
    }
}

impl DerivedUnitMap {
    pub(crate) fn new() -> (table: Self)
        ensures
            table@ == Map::<RelationKey, Seq<char>>::empty(),
            table.entries@.len() == 0,
    {
        DerivedUnitMap { entries: Vec::new() }
    }

    /// The table is what its entries say, a later entry before an earlier one.
    pub(crate) proof fn lemma_entries(&self)
        ensures
            self@ == assoc(relation_pairs(self.entries@)),
    {
    }

    /// The unit that `left operator right` is, if the table knows one.
    pub fn lookup(&self, left: &str, operator: Operator, right: &str) -> (found: Option<&String>)
        ensures
            match found {
                Some(unit) => self@.contains_key((left@, operator, right@)) && self@[(
                    left@,
                    operator,
                    right@,
                )] == unit@,
                None => !self@.contains_key((left@, operator, right@)),
            },
    {
        let ghost pairs = relation_pairs(self.entries@);
        let ghost key = (left@, operator, right@);
        let mut i: usize = self.entries.len();
        while i > 0
            invariant
                i <= self.entries@.len(),
                pairs == relation_pairs(self.entries@),
                key == (left@, operator, right@),
                forall|j: int| i <= j < pairs.len() ==> (#[trigger] pairs[j]).0 != key,
            decreases i,
        {
            i = i - 1;
            let entry = &self.entries[i];
            if entry.operator == operator && same_text(entry.left.as_str(), left) && same_text(
                entry.right.as_str(),
                right,
            ) {
                proof {
                    assert(pairs[i as int].0 == key);
                    lemma_assoc_last(pairs, i as int);
                }
                return Some(&entry.result);
            }
            assert(pairs[i as int].0 != key);
        }
        proof {
            lemma_assoc_contains(pairs, key);
        }
        None
    }

    /// The unit that `key.0 key.1 key.2` is, if the table knows one; the
    /// operator is written `*` or `/`.
    pub fn get(&self, key: &(&str, &str, &str)) -> (found: Option<&String>)
        ensures
            match found {
                Some(unit) => factor_operator(key.1@) is Some && self@.contains_key(
                    (key.0@, factor_operator(key.1@)->0, key.2@),
                ) && self@[(key.0@, factor_operator(key.1@)->0, key.2@)] == unit@,
                None => factor_operator(key.1@) is None || !self@.contains_key(
                    (key.0@, factor_operator(key.1@)->0, key.2@),
                ),
            },
    {
        match read_factor_operator(key.1) {
            Some(operator) => self.lookup(key.0, operator, key.2),
            None => None,
        }
    }

    pub(crate) fn record(&mut self, left: &str, operator: Operator, right: &str, result: &str)
        ensures
            final(self)@ == old(self)@.insert((left@, operator, right@), result@),
            final(self).entries@.len() == old(self).entries@.len() + 1,
            final(self).entries@.take(old(self).entries@.len() as int) == old(self).entries@,
    {
        let entry = Relation {
            left: left.to_owned(),
            operator,
            right: right.to_owned(),
            result: result.to_owned(),
        };
        proof {
            lemma_assoc_push(relation_pairs(self.entries@), entry.pair().0, entry.pair().1);
            assert(relation_pairs(self.entries@.push(entry)) =~= relation_pairs(
                self.entries@,
            ).push(entry.pair()));
            assert(self.entries@.push(entry).take(self.entries@.len() as int) =~= self.entries@);
        }
        self.entries.push(entry);
    }

    /// Adds the relation `result = left operator right`, with `operator` one
    /// of `*` and `/`, and the relations that follow from it.
    pub(crate) fn register(&mut self, operator: Operator, left: &str, right: &str, result: &str)
        requires
            operator == Operator::Multiply || operator == Operator::Divide,
        ensures
            final(self)@ == register(old(self)@, operator, left@, right@, result@),
            final(self).entries@.len() >= old(self).entries@.len(),
            final(self).entries@.take(old(self).entries@.len() as int) == old(self).entries@,
    {
        let ghost before = self.entries@;
        match operator {
            Operator::Multiply => {
                self.record(left, Operator::Multiply, right, result);
                self.record(right, Operator::Multiply, left, result);
                self.record(result, Operator::Divide, left, right);
                self.record(result, Operator::Divide, right, left);
            },
            _ => {
                self.record(left, Operator::Divide, right, result);
                self.record(left, Operator::Divide, result, right);
                self.record(result, Operator::Multiply, right, left);
            },
        }
        assert(self.entries@.take(before.len() as int) =~= before);
    }
}

/// The base unit of each unit, and the factor that leads to it.
#[derive(Debug)]
pub struct BaseUnitMap<F> {
    pub(crate) entries: Vec<(String, (F, String))>,
}

pub open spec fn base_pairs<F>(entries: Seq<(String, (F, String))>) -> Seq<
    (Seq<char>, (F, Seq<char>)),
> {
    Seq::new(entries.len(), |i: int| (entries[i].0@, (entries[i].1.0, entries[i].1.1@)))
}

impl<F> View for BaseUnitMap<F> {
    type V = Map<Seq<char>, (F, Seq<char>)>;

    closed spec fn view(&self) -> Map<Seq<char>, (F, Seq<char>)> {
        assoc(base_pairs(self.entries@))
    }
}

impl<F: Copy> BaseUnitMap<F> {
    pub(crate) fn new() -> (table: Self)
        ensures
            table@ == Map::<Seq<char>, (F, Seq<char>)>::empty(),
            table.entries@.len() == 0,
    {
        BaseUnitMap { entries: Vec::new() }
    }

    /// The factor and the base unit of `unit`, if the unit was declared.
    pub fn get(&self, unit: &str) -> (found: Option<&(F, String)>)
        ensures
            match found {
                Some(entry) => self@.contains_key(unit@) && self@[unit@] == (entry.0, entry.1@),
                None => !self@.contains_key(unit@),
            },
    {
        let ghost pairs = base_pairs(self.entries@);
        let mut i: usize = self.entries.len();
        while i > 0
            invariant
                i <= self.entries@.len(),
                pairs == base_pairs(self.entries@),
                forall|j: int| i <= j < pairs.len() ==> (#[trigger] pairs[j]).0 != unit@,
            decreases i,
        {
            i = i - 1;
            let entry = &self.entries[i];
            if same_text(entry.0.as_str(), unit) {
                proof {
                    assert(pairs[i as int].0 == unit@);
                    lemma_assoc_last(pairs, i as int);
                }
                return Some(&entry.1);
            }
            assert(pairs[i as int].0 != unit@);
        }
        proof {
            lemma_assoc_contains(pairs, unit@);
        }
        None
    }

    pub(crate) fn record(&mut self, unit: &str, factor: F, base: &str)
        ensures
            final(self)@ == old(self)@.insert(unit@, (factor, base@)),
            base_pairs(final(self).entries@) == base_pairs(old(self).entries@).push(
                (unit@, (factor, base@)),
            ),
    {
        let entry = (unit.to_owned(), (factor, base.to_owned()));
        proof {
            lemma_assoc_push(base_pairs(self.entries@), unit@, (factor, base@));
            assert(base_pairs(self.entries@.push(entry)) =~= base_pairs(self.entries@).push(
                (unit@, (factor, base@)),
            ));
        }
        self.entries.push(entry);
    }
}

} // verus!
