//! What formulas are read against: the names of atoms, and for each label
//! the statement it introduces (its address, its math string and its frame's
//! hypotheses).

use vstd::prelude::*;
use crate::term::Term;
use crate::{Atom, Label, Symbol};

verus! {

/// Whether a math symbol is a constant or a variable.
#[derive(Clone, Copy, Debug, PartialEq, Eq, Structural)]
pub enum SymbolType {
    Variable,
    Constant,
}

/// Where a statement stands in the database.
#[derive(Clone, Copy, Debug, PartialEq, Eq, Structural)]
pub struct StatementAddress {
    pub segment_id: u32,
    pub index: i32,
}

/// A token of a statement's math string, with the symbol it names.
#[derive(Clone, Copy, Debug, PartialEq, Eq, Structural)]
pub struct MathToken {
    pub symbol: Symbol,
    pub stype: SymbolType,
}

/// A hypothesis of a statement's frame: an essential one, or the floating
/// hypothesis of the variable that comes at the given index among the
/// variables of the statement's math string.
#[derive(Clone, Copy, Debug, PartialEq, Eq, Structural)]
pub enum Hyp {
    Essential,
    Floating(usize),
}

/// A syntax axiom or floating hypothesis: its address, its math string
/// (typecode first) and the hypotheses of its frame.
#[derive(Clone, Debug)]
pub struct Statement {
    pub address: StatementAddress,
    pub math: Vec<MathToken>,
    pub hypotheses: Vec<Hyp>,
}

/// The names of the atoms and the statements of the labels.
#[derive(Clone, Debug)]
pub struct Database {
    names: Vec<Vec<u8>>,
    statements: Vec<Option<Statement>>,
}

impl Database {
    /// The name of atom `a`, if it has one.
    pub closed spec fn name(&self, a: Atom) -> Option<Seq<u8>> {
        if a < self.names@.len() {
            Some(self.names@[a as int]@)
        } else {
            None
        }
    }

    /// The statement that `l` labels, if any.
    pub closed spec fn statement(&self, l: Label) -> Option<Statement> {
        if l < self.statements@.len() {
            self.statements@[l as int]
        } else {
            None
        }
    }

    /// The math string of the statement that `l` labels; empty if there is none.
    pub open spec fn math(&self, l: Label) -> Seq<MathToken> {
        match self.statement(l) {
            Some(st) => st.math@,
            None => Seq::empty(),
        }
    }

    /// A database where atom `a` is named `names[a]` and label `l` labels
    /// `statements[l]`.
    pub fn new(names: Vec<Vec<u8>>, statements: Vec<Option<Statement>>) -> (r: Database)
        ensures
            forall|a: Atom|
                #[trigger] r.name(a) == if a < names@.len() {
                    Some(names@[a as int]@)
                } else {
                    None
                },
            forall|l: Label|
                #[trigger] r.statement(l) == if l < statements@.len() {
                    statements@[l as int]
                } else {
                    None
                },
    {
        Database { names, statements }
    }

    /// The name of atom `a`.
    pub fn atom_name(&self, a: Atom) -> (r: &[u8])
        requires
            self.name(a) is Some,
        ensures
            r@ == self.name(a).unwrap(),
    {
        self.names[a as usize].as_slice()
    }

    /// The statement that `l` labels, if any.
    pub fn statement_of(&self, l: Label) -> (r: Option<&Statement>)
        ensures
            r == match self.statement(l) {
                Some(st) => Some(&st),
                None => None::<&Statement>,
            },
    {
        if (l as usize) < self.statements.len() {
            match &self.statements[l as usize] {
                Some(st) => Some(st),
                None => None,
            }
        } else {
            None
        }
    }
}

/// The symbols of `t` written out from the token at index `k` of its
/// statement's math string, with `c` the index of the next subterm: a constant
/// token, or a variable token of a term without subterms, gives its symbol; a
/// variable token of a term with subterms gives the symbols of its next
/// subterm, from index 1 of that subterm's math string (index 0 holds the
/// typecode).
pub open spec fn flat_from(db: Database, t: Term, k: int, c: int) -> Seq<Symbol>
    decreases t, db.math(t.label).len() - k,
{
    let math = db.math(t.label);
    if k < 0 || k >= math.len() {
        Seq::empty()
    } else {
        let tok = math[k];
        if tok.stype == SymbolType::Constant || t.args.len() == 0 {
            seq![tok.symbol] + flat_from(db, t, k + 1, c)
        } else if 0 <= c < t.args.len() {
            flat_from(db, t.args[c], 1, 0) + flat_from(db, t, k + 1, c + 1)
        } else {
            Seq::empty()
        }
    }
}

/// The symbols of `t`, the typecode left out.
pub open spec fn flat(db: Database, t: Term) -> Seq<Symbol> {
    flat_from(db, t, 1, 0)
}

/// Writing `t` out from token `k`, with `c` the next subterm, meets a statement
/// for every term it enters, and a subterm for every variable token of a term
/// that has subterms.
pub open spec fn flattens_from(db: Database, t: Term, k: int, c: int) -> bool
    decreases t, db.math(t.label).len() - k,
{
    let math = db.math(t.label);
    &&& db.statement(t.label) is Some
    &&& (k < 0 || k >= math.len() || {
        let tok = math[k];
        if tok.stype == SymbolType::Constant || t.args.len() == 0 {
            flattens_from(db, t, k + 1, c)
        } else {
            &&& 0 <= c < t.args.len()
            &&& flattens_from(db, t.args[c], 1, 0)
            &&& flattens_from(db, t, k + 1, c + 1)
        }
    })
}

/// `t` can be written out against `db`.
pub open spec fn flattens(db: Database, t: Term) -> bool {
    flattens_from(db, t, 1, 0)
}

/// Every symbol of `syms` has a name in `db`.
pub open spec fn all_named(db: Database, syms: Seq<Symbol>) -> bool {
    forall|i: int| 0 <= i < syms.len() ==> (#[trigger] db.name(syms[i])) is Some
}

/// `buf` with the name of `sym` appended and the high bit of the last byte set.
pub open spec fn encode_symbol(db: Database, buf: Seq<u8>, sym: Symbol) -> Seq<u8> {
    let b = buf + db.name(sym).unwrap();
    if b.len() > 0 {
        b.update(b.len() - 1, b[b.len() - 1] | 0x80u8)
    } else {
        b
    }
}

/// `buf` with each symbol of `syms` appended in turn by `encode_symbol`.
pub open spec fn encode(db: Database, buf: Seq<u8>, syms: Seq<Symbol>) -> Seq<u8>
    decreases syms.len(),
{
    if syms.len() == 0 {
        buf
    } else {
        encode(db, encode_symbol(db, buf, syms[0]), syms.drop_first())
    }
}

/// Appending `syms` to `buf` never marks a byte that is not there: either
/// nothing is appended, or the buffer or the first name is not empty.
pub open spec fn encodable(db: Database, buf: Seq<u8>, syms: Seq<Symbol>) -> bool {
    syms.len() == 0 || buf.len() > 0 || db.name(syms[0]).unwrap().len() > 0
}

} // verus!
