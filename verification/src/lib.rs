//! Parsed Metamath formulas kept as the tree of their syntactic proof, with
//! verified unification, substitution and rendering.

pub mod bit_set;
pub mod database;
pub mod formula;
pub mod laws;
pub mod output_laws;
pub mod term;
pub mod tree;

use vstd::prelude::*;

verus! {

/// An interned name: a label, a math symbol or a typecode.
pub type Atom = u32;

/// An atom representing a typecode (for "set.mm", one of `wff`, `class`, `setvar` or `|-`).
pub type TypeCode = Atom;

/// An atom representing a math symbol.
pub type Symbol = Atom;

/// An atom representing a label.
pub type Label = Atom;

/// The index of a node in a [`tree::Tree`].
pub type NodeId = usize;

} // verus!
