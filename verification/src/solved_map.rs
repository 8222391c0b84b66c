//! The truth map of forward chaining: a fixed vocabulary of atoms, each marked
//! true or false.

use vstd::prelude::*;
use vstd::hash_map::StringHashMap;
use vstd::pervasive::unreached;
use crate::rule::Atom;

verus! {

/// An atom that is not in the vocabulary.
#[derive(Debug)]
pub struct UnknownAtom {
    /// The label that was looked up.
    pub atom: String,
}

/// A truth value for every atom of a finite vocabulary.
///
/// Its value in contracts is the map from the labels of the vocabulary to
/// their truth values.
pub struct SolvedMap {
    truth: StringHashMap<bool>,
}

impl View for SolvedMap {
    type V = Map<Atom, bool>;

    closed spec fn view(&self) -> Map<Atom, bool> {
        self.truth@
    }
}

impl SolvedMap {
    /// The vocabulary is finite.
    #[verifier::type_invariant]
    pub open spec fn finite_vocabulary(self) -> bool {
        self@.dom().finite()
    }

    /// A map with an empty vocabulary.
    pub fn new() -> (solved: SolvedMap)
        ensures
            solved@ == Map::<Atom, bool>::empty(),
    {
        SolvedMap { truth: StringHashMap::new() }
    }

    /// Puts `atom` into the vocabulary with the given truth value, or sets the
    /// value of an atom that is there already.
    pub fn insert(&mut self, atom: String, truth: bool)
        ensures
            final(self)@ == old(self)@.insert(atom@, truth),
    {
        proof {
            use_type_invariant(&*self);
        }
        // The map is taken out for the update and put back afterwards, so
        // that the field holds a finite map at every step.
        let mut map = StringHashMap::new();
        core::mem::swap(&mut self.truth, &mut map);
        map.insert(atom, truth);
        self.truth = map;
    }

    /// The truth value of `atom`, or the atom handed back as unknown where the
    /// vocabulary does not hold it.
    pub fn lookup(&self, atom: &str) -> (found: Result<bool, UnknownAtom>)
        ensures
            match found {
                Ok(truth) => self@.contains_key(atom@) && truth == self@[atom@],
                Err(unknown) => !self@.contains_key(atom@) && unknown.atom@ == atom@,
            },
    {
        match self.truth.get(atom) {
            Some(truth) => Ok(*truth),
            None => Err(UnknownAtom { atom: atom.to_owned() }),
        }
    }

    /// The number of atoms in the vocabulary, which is finite.
    pub fn len(&self) -> (count: usize)
        ensures
            self@.dom().finite(),
            count == self@.dom().len(),
    {
        proof {
            use_type_invariant(self);
        }
        self.truth.len()
    }

    /// The truth value of an atom of the vocabulary.
    pub(crate) fn is_true(&self, atom: &str) -> (truth: bool)
        requires
            self@.contains_key(atom@),
        ensures
            truth == self@[atom@],
    {
        match self.truth.get(atom) {
            Some(truth) => *truth,
            None => unreached(),
        }
    }
}

} // verus!
