//! A resolved value for a variable, and the map from identifiers to the
//! choices accumulated during one execution.

use vstd::prelude::*;
use crate::identifiers::{IdentV, Identifier};

verus! {

/// Mathematical value of a choice.
pub struct ChoiceV {
    pub value: Seq<char>,
    pub description: Option<Seq<char>>,
}

/// A value with an optional description. Immutable once built.
#[derive(Debug, Clone)]
pub struct Choice {
    value: String,
    description: Option<String>,
}

impl View for Choice {
    type V = ChoiceV;

    closed spec fn view(&self) -> ChoiceV {
        ChoiceV {
            value: self.value@,
            description: match self.description {
                Some(d) => Some(d@),
                None => None,
            },
        }
    }
}

impl Choice {
    pub fn new(value: &str, description: Option<&str>) -> (r: Choice)
        ensures
            r@.value == value@,
            r@.description == match description {
                Some(d) => Some(d@),
                None => None::<Seq<char>>,
            },
    {
        Choice {
            value: value.to_owned(),
            description: match description {
                Some(d) => Some(d.to_owned()),
                None => None,
            },
        }
    }

    pub fn value(&self) -> (r: &str)
        ensures
            r@ == self@.value,
    {
        self.value.as_str()
    }

    pub fn desc(&self) -> (r: &Option<String>)
        ensures
            *r is Some <==> self@.description is Some,
            *r is Some ==> r->Some_0@ == self@.description->Some_0,
    {
        &self.description
    }

    /// A copy whose value is the same.
    pub fn duplicate(&self) -> (r: Choice)
        ensures
            r@ == self@,
    {
        Choice {
            value: self.value.clone(),
            description: match &self.description {
                Some(d) => Some(d.clone()),
                None => None,
            },
        }
    }
}

/// The map from identifiers to choices built while the ordered variables of
/// one execution are resolved. Later insertions win.
#[derive(Debug)]
pub struct ChoiceMap {
    entries: Vec<(Identifier, Choice)>,
}

/// The mapping that a sequence of entries denotes, later entries winning.
pub open spec fn map_of(entries: Seq<(Identifier, Choice)>) -> Map<IdentV, ChoiceV>
    decreases entries.len(),
{
    if entries.len() == 0 {
        Map::empty()
    } else {
        map_of(entries.drop_last()).insert(entries.last().0@, entries.last().1@)
    }
}

impl View for ChoiceMap {
    type V = Map<IdentV, ChoiceV>;

    closed spec fn view(&self) -> Map<IdentV, ChoiceV> {
        map_of(self.entries@)
    }
}

impl ChoiceMap {
    pub fn new() -> (r: ChoiceMap)
        ensures
            r@ == Map::<IdentV, ChoiceV>::empty(),
    {
        ChoiceMap { entries: Vec::new() }
    }

    pub fn insert(&mut self, id: Identifier, choice: Choice)
        ensures
            final(self)@ == old(self)@.insert(id@, choice@),
    {
        let ghost prev = self.entries@;
        self.entries.push((id, choice));
        proof {
            assert(self.entries@.drop_last() =~= prev);
        }
    }

    pub fn get(&self, id: &Identifier) -> (r: Option<&Choice>)
        ensures
            r is Some <==> self@.contains_key(id@),
            r is Some ==> r->Some_0@ == self@[id@],
    {
        let mut j = self.entries.len();
        proof {
            assert(self.entries@.take(j as int) =~= self.entries@);
        }
        while j > 0
            invariant
                j <= self.entries@.len(),
                map_of(self.entries@).contains_key(id@) == map_of(
                    self.entries@.take(j as int),
                ).contains_key(id@),
                map_of(self.entries@).contains_key(id@) ==> map_of(self.entries@)[id@] == map_of(
                    self.entries@.take(j as int),
                )[id@],
            decreases j,
        {
            j = j - 1;
            proof {
                assert(self.entries@.take(j + 1 as int).drop_last() =~= self.entries@.take(
                    j as int,
                ));
                assert(self.entries@.take(j + 1 as int).last() == self.entries@[j as int]);
            }
            if self.entries[j].0.is_same(id) {
                return Some(&self.entries[j].1);
            }
        }
        proof {
            assert(self.entries@.take(0) =~= Seq::<(Identifier, Choice)>::empty());
        }
        None
    }
}

} // verus!
