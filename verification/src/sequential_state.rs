//! An append-only sequence of entries with an optional cap: pushing past
//! the cap evicts the oldest entry. An interactor lets a pluggable
//! selector pick an entry to delete.

use vstd::prelude::*;

verus! {

/// An entry a sequential state can hold.
pub trait Value {

}

impl<T> Value for T {

}

/// Why an operation on the state failed. The fields carry the cause as
/// plain text; rendering is the caller's.
#[derive(Debug)]
pub enum ErrorSequentialState {
    CreationFailure(String),
    InitFailure(String),
    OpenFailure(String),
    WriteFailures(String),
    SaveFailures(String),
    ReadFailure(String),
}

/// The ordered entries, oldest first, never more than the cap.
#[derive(Debug)]
pub struct SequentialState<V> {
    entries: Vec<V>,
    max_size: Option<usize>,
}

impl<V> View for SequentialState<V> {
    type V = Seq<V>;

    closed spec fn view(&self) -> Seq<V> {
        self.entries@
    }
}

impl<V> SequentialState<V> {
    pub closed spec fn spec_max_size(&self) -> Option<usize> {
        self.max_size
    }

    pub fn new(max_size: Option<usize>) -> (r: SequentialState<V>)
        ensures
            r@ == Seq::<V>::empty(),
            r.spec_max_size() == max_size,
    {
        SequentialState { entries: Vec::new(), max_size }
    }

    /// Append an entry; when the cap is passed, the oldest entry leaves.
    pub fn push(&mut self, entry: V)
        ensures
            final(self).spec_max_size() == old(self).spec_max_size(),
            final(self)@ == ({
                let grown = old(self)@.push(entry);
                match old(self).spec_max_size() {
                    Some(m) => if grown.len() > m {
                        grown.subrange(1, grown.len() as int)
                    } else {
                        grown
                    },
                    None => grown,
                }
            }),
    {
        self.entries.push(entry);
        match self.max_size {
            Some(m) => {
                if self.entries.len() > m {
                    self.entries.remove(0);
                }
            },
            None => {},
        }
    }

    /// The newest entry, if any.
    pub fn last(&self) -> (r: Option<&V>)
        ensures
            r is Some <==> self@.len() > 0,
            r is Some ==> *r->Some_0 == self@.last(),
    {
        if self.entries.len() > 0 {
            Some(&self.entries[self.entries.len() - 1])
        } else {
            None
        }
    }

    /// The oldest entry, if any.
    pub fn first(&self) -> (r: Option<&V>)
        ensures
            r is Some <==> self@.len() > 0,
            r is Some ==> *r->Some_0 == self@[0],
    {
        if self.entries.len() > 0 {
            Some(&self.entries[0])
        } else {
            None
        }
    }

    /// The entries, oldest first.
    pub fn entries(&self) -> (r: &Vec<V>)
        ensures
            r@ == self@,
    {
        &self.entries
    }

    /// Remove the entry at `position`.
    pub fn delete(&mut self, position: usize)
        requires
            position < old(self)@.len(),
        ensures
            final(self).spec_max_size() == old(self).spec_max_size(),
            final(self)@ == old(self)@.remove(position as int),
    {
        self.entries.remove(position);
    }
}

/// The capability that picks an entry among those shown, or none.
pub trait EntrySelector<V> {
    fn select_entry(&self, data: &Vec<V>) -> Result<Option<usize>, String>;
}

/// Why an interaction with the state failed.
#[derive(Debug)]
pub enum ErrorSeqStateInteractor {
    ErrState(ErrorSequentialState),
    ErrEntrySelector(String),
}

/// A sequential state together with the selector that drives deletions.
pub struct SequentialStateInteractor<V, D> {
    state: SequentialState<V>,
    delegate: D,
}

impl<V, D> SequentialStateInteractor<V, D> {
    pub closed spec fn spec_state(&self) -> Seq<V> {
        self.state@
    }

    pub closed spec fn spec_max_size(&self) -> Option<usize> {
        self.state.spec_max_size()
    }

    pub fn new(delegate: D, max_size: Option<usize>) -> (r: SequentialStateInteractor<V, D>)
        ensures
            r.spec_state() == Seq::<V>::empty(),
            r.spec_max_size() == max_size,
    {
        SequentialStateInteractor { state: SequentialState::new(max_size), delegate }
    }

    /// Record an entry; when the cap is passed, the oldest entry leaves.
    pub fn push(&mut self, entry: V)
        ensures
            final(self).spec_max_size() == old(self).spec_max_size(),
            final(self).spec_state() == ({
                let grown = old(self).spec_state().push(entry);
                match old(self).spec_max_size() {
                    Some(m) => if grown.len() > m {
                        grown.subrange(1, grown.len() as int)
                    } else {
                        grown
                    },
                    None => grown,
                }
            }),
    {
        self.state.push(entry)
    }

    /// The recorded entries, oldest first.
    pub fn entries(&self) -> (r: &Vec<V>)
        ensures
            r@ == self.spec_state(),
    {
        self.state.entries()
    }
}

impl<V, D> SequentialStateInteractor<V, D> where D: EntrySelector<V> {
    /// Let the selector pick an entry and delete it. Picking none leaves
    /// the state as it is; a selection out of range is the selector's
    /// error and changes nothing.
    pub fn delete_entry(&mut self) -> (r: Result<(), ErrorSeqStateInteractor>)
        ensures
            final(self).spec_max_size() == old(self).spec_max_size(),
            r is Err ==> final(self).spec_state() == old(self).spec_state(),
            r is Ok ==> final(self).spec_state() == old(self).spec_state() || exists|i: int|
                0 <= i < old(self).spec_state().len() && final(self).spec_state() == old(
                    self,
                ).spec_state().remove(i),
    {
        let selected = match self.delegate.select_entry(self.state.entries()) {
            Ok(sel) => sel,
            Err(cause) => {
                return Err(ErrorSeqStateInteractor::ErrEntrySelector(cause));
            },
        };
        match selected {
            Some(position) => {
                if position < self.state.entries().len() {
                    self.state.delete(position);
                    Ok(())
                } else {
                    Err(
                        ErrorSeqStateInteractor::ErrEntrySelector(
                            "selected position out of range".to_owned(),
                        ),
                    )
                }
            },
            None => Ok(()),
        }
    }
}

} // verus!
