use vstd::prelude::*;
use crate::region::{Located, Region};
use crate::symbol::Symbol;

verus! {

/// A type variable.
#[derive(Clone, Copy, Debug, PartialEq, Eq, Structural)]
pub struct Variable(pub u32);

/// The source of fresh type variables: each one it hands out is new.
pub struct VarStore {
    pub next: u32,
}

impl VarStore {
    /// A store whose first fresh variable is `Variable(next)`.
    pub fn new(next: u32) -> (r: VarStore)
        ensures
            r.next == next,
    {
        VarStore { next }
    }

    /// Hands out the next variable.
    pub fn fresh(&mut self) -> (v: Variable)
        requires
            old(self).next < u32::MAX,
        ensures
            v == Variable(old(self).next),
            final(self).next == old(self).next + 1,
    {
        let answer = self.next;
        self.next = self.next + 1;
        Variable(answer)
    }
}

/// A field of a record type.
#[derive(Clone, Debug, PartialEq, Eq)]
pub enum RecordField<T> {
    Optional(T),
    Required(T),
    Demanded(T),
}

/// What is wrong with a type that could not be canonicalized.
#[derive(Clone, Debug, PartialEq, Eq)]
pub enum Problem {
    /// The name is already bound in scope: where it was bound first, and the new binding.
    Shadowed(Region, Located<String>),
    /// The annotation is malformed.
    CanonicalizationProblem,
    /// The name does not refer to any known type.
    UnrecognizedIdent(String),
    /// An alias was given the wrong number of arguments.
    BadTypeArguments { symbol: Symbol, region: Region, alias_needs: u8, type_got: u8 },
}

} // verus!
