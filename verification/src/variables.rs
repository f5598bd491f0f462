//! The variables of a session, each with the unit of its value.

use vstd::prelude::*;
use crate::assoc::{assoc, lemma_assoc_contains, lemma_assoc_last, lemma_assoc_push, lemma_assoc_update};
use crate::text::same_text;

verus! {

/// Variable name to unit; the empty unit is that of a plain number.
#[derive(Debug)]
pub struct Variables {
    entries: Vec<(String, String)>,
}

pub open spec fn variable_pairs(entries: Seq<(String, String)>) -> Seq<(Seq<char>, Seq<char>)> {
    Seq::new(entries.len(), |i: int| (entries[i].0@, entries[i].1@))
}

impl View for Variables {
    type V = Map<Seq<char>, Seq<char>>;

    closed spec fn view(&self) -> Map<Seq<char>, Seq<char>> {
        assoc(variable_pairs(self.entries@))
    }
}

impl Variables {
    /// No variable at all.
    pub fn new() -> (variables: Self)
        ensures
            variables@ == Map::<Seq<char>, Seq<char>>::empty(),
    {
        Variables { entries: Vec::new() }
    }

    /// The position of the last entry for `name`.
    fn position(&self, name: &str) -> (found: Option<usize>)
        ensures
            match found {
                Some(i) => i < self.entries@.len() && self.entries@[i as int].0@ == name@ && forall|
                    j: int,
                |
                    i < j < self.entries@.len() ==> (#[trigger] variable_pairs(
                        self.entries@,
                    )[j]).0 != name@,
                None => !self@.contains_key(name@),
            },
    {
        let ghost pairs = variable_pairs(self.entries@);
        let mut i: usize = self.entries.len();
        while i > 0
            invariant
                i <= self.entries@.len(),
                pairs == variable_pairs(self.entries@),
                forall|j: int| i <= j < pairs.len() ==> (#[trigger] pairs[j]).0 != name@,
            decreases i,
        {
            i = i - 1;
            if same_text(self.entries[i].0.as_str(), name) {
                return Some(i);
            }
            assert(pairs[i as int].0 != name@);
        }
        proof {
            lemma_assoc_contains(pairs, name@);
        }
        None
    }

    /// The unit of the variable `name`, if it has a value.
    pub fn get(&self, name: &str) -> (found: Option<&String>)
        ensures
            match found {
                Some(unit) => self@.contains_key(name@) && self@[name@] == unit@,
                None => !self@.contains_key(name@),
            },
    {
        match self.position(name) {
            Some(i) => {
                proof {
                    let pairs = variable_pairs(self.entries@);
                    assert(pairs[i as int].0 == name@);
                    lemma_assoc_last(pairs, i as int);
                }
                Some(&self.entries[i].1)
            },
            None => None,
        }
    }

    /// Gives the variable `name` the unit `unit`.
    pub fn set(&mut self, name: &str, unit: String)
        ensures
            final(self)@ == old(self)@.insert(name@, unit@),
    {
        let ghost pairs = variable_pairs(self.entries@);
        match self.position(name) {
            Some(i) => {
                let entry = (name.to_owned(), unit);
                proof {
                    assert(pairs[i as int].0 == name@);
                    lemma_assoc_update(pairs, i as int, unit@);
                    assert(variable_pairs(self.entries@.update(i as int, entry)) =~= pairs.update(
                        i as int,
                        (name@, unit@),
                    ));
                }
                self.entries.set(i, entry);
            },
            None => {
                let entry = (name.to_owned(), unit);
                proof {
                    lemma_assoc_push(pairs, name@, unit@);
                    assert(variable_pairs(self.entries@.push(entry)) =~= pairs.push(
                        (name@, unit@),
                    ));
                }
                self.entries.push(entry);
            },
        }
    }
}

} // verus!
