//! An alias: a named, templated shell command. The template may reference
//! variables (`{{ name }}`) and other aliases (`[[ name ]]`).

use vstd::prelude::*;
use crate::identifiers::{IdentV, Identifier};

verus! {

/// Mathematical value of an alias.
pub struct AliasV {
    pub name: Seq<char>,
    pub namespace: Option<Seq<char>>,
    pub desc: Seq<char>,
    pub alias: Seq<char>,
}

/// The identifier of an alias value.
pub open spec fn alias_ident(a: AliasV) -> IdentV {
    IdentV { name: a.name, namespace: a.namespace }
}

/// A named, described command template. Mutable only while a collection
/// expands its references; frozen afterwards.
#[derive(Debug, Clone)]
pub struct Alias {
    pub name: String,
    pub namespace: Option<String>,
    pub desc: String,
    pub alias: String,
}

impl View for Alias {
    type V = AliasV;

    open spec fn view(&self) -> AliasV {
        AliasV {
            name: self.name@,
            namespace: match self.namespace {
                Some(ns) => Some(ns@),
                None => None,
            },
            desc: self.desc@,
            alias: self.alias@,
        }
    }
}

impl Alias {
    pub fn new(name: &str, desc: &str, alias: &str) -> (r: Alias)
        ensures
            r@.name == name@,
            r@.namespace is None,
            r@.desc == desc@,
            r@.alias == alias@,
    {
        Alias {
            name: name.to_owned(),
            namespace: None,
            desc: desc.to_owned(),
            alias: alias.to_owned(),
        }
    }

    /// Stamp the namespace a loader derived for this record.
    pub fn set_namespace(&mut self, namespace: Option<String>)
        ensures
            final(self)@ == (AliasV {
                namespace: match namespace {
                    Some(ns) => Some(ns@),
                    None => None::<Seq<char>>,
                },
                ..old(self)@
            }),
    {
        self.namespace = namespace;
    }

    pub fn name(&self) -> (r: &str)
        ensures
            r@ == self@.name,
    {
        self.name.as_str()
    }

    pub fn desc(&self) -> (r: &str)
        ensures
            r@ == self@.desc,
    {
        self.desc.as_str()
    }

    /// The template text.
    pub fn alias(&self) -> (r: &str)
        ensures
            r@ == self@.alias,
    {
        self.alias.as_str()
    }

    pub fn identifier(&self) -> (r: Identifier)
        ensures
            r@ == alias_ident(self@),
    {
        Identifier {
            name: self.name.clone(),
            namespace: match &self.namespace {
                Some(ns) => Some(ns.clone()),
                None => None,
            },
        }
    }

    /// The template text as substituted for references to this alias.
    pub fn sanitized_alias(&self) -> (r: String)
        ensures
            r@ == self@.alias,
    {
        self.alias.clone()
    }

    /// Replace the template, once composition has expanded it.
    pub fn update(&mut self, alias: String)
        ensures
            final(self)@ == (AliasV { alias: alias@, ..old(self)@ }),
    {
        self.alias = alias;
    }

    /// A copy whose value is the same.
    pub fn duplicate(&self) -> (r: Alias)
        ensures
            r@ == self@,
    {
        Alias {
            name: self.name.clone(),
            namespace: match &self.namespace {
                Some(ns) => Some(ns.clone()),
                None => None,
            },
            desc: self.desc.clone(),
            alias: self.alias.clone(),
        }
    }
}

} // verus!
