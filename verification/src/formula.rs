//! `Formula` stores the result of a parsing as the tree of its "syntactic proof".
//! Each node is labelled by the syntax axiom (or floating hypothesis, for a
//! variable) that builds it from its children.

use std::collections::HashMap;
use std::ops::Range;
use std::sync::Arc;
use vstd::prelude::*;
use vstd::std_specs::cmp::PartialEqSpecImpl;
use crate::bit_set::Bitset;
use crate::database::{
    all_named, encodable, encode, encode_symbol, flat, flat_from, flattens, flattens_from,
    Database, Hyp, StatementAddress,
    SymbolType,
};
use crate::term::{label_at, pattern_vars, size, sub_equal, subst, sum_sizes, unify_args, unify_term, Term};
use crate::tree::{lemma_sub_equal_flags, lemma_term_at_args, lemma_term_at_frame, term_at, Tree};
use crate::{Label, NodeId, Symbol, TypeCode};

verus! {

broadcast use vstd::std_specs::hash::group_hash_axioms;

/// Shares the tree behind `tree`: calls `Arc::clone`, which returns a new
/// handle to the same allocation, hence to an equal value.
#[verifier::external_body]
fn share_tree(tree: &Arc<Tree>) -> (r: Arc<Tree>)
    ensures
        r == *tree,
{
    Arc::clone(tree)
}

/// Calls `Arc::ptr_eq`, which is true only when both handles point to the same
/// allocation, so that the values behind them are equal. Nothing is claimed
/// when it is false.
#[verifier::external_body]
fn same_tree(a: &Arc<Tree>, b: &Arc<Tree>) -> (r: bool)
    ensures
        r ==> *a == *b,
{
    Arc::ptr_eq(a, b)
}

/// A set of substitutions, mapping variables to a formula.
#[derive(Clone, Debug)]
pub struct Substitutions(HashMap<Label, Formula>);

impl View for Substitutions {
    type V = Map<Label, Term>;

    closed spec fn view(&self) -> Map<Label, Term> {
        self.0@.map_values(|f: Formula| f@)
    }
}

impl Substitutions {
    /// The typecode of the formula bound to each variable.
    pub closed spec fn typecodes(&self) -> Map<Label, TypeCode> {
        self.0@.map_values(|f: Formula| f.spec_typecode())
    }

    /// The formula bound to each variable.
    pub closed spec fn formulas(&self) -> Map<Label, Formula> {
        self.0@
    }

    proof fn lemma_views(&self)
        ensures
            self@.dom() == self.formulas().dom(),
            self.typecodes().dom() == self.formulas().dom(),
            forall|l: Label|
                #[trigger] self.formulas().contains_key(l) ==> self@[l] == self.formulas()[l]@
                    && self.typecodes()[l] == self.formulas()[l].spec_typecode(),
    {
    }

    /// Returns the formula bound to `label`.
    pub fn index(&self, label: Label) -> (r: &Formula)
        requires
            self@.contains_key(label),
        ensures
            *r == self.formulas()[label],
            r@ == self@[label],
    {
        self.0.get(&label).unwrap()
    }

    /// Inserts a substitution into the substitution set, returning the formula
    /// that `label` was bound to before, if any.
    pub fn insert(&mut self, label: Label, formula: Formula) -> (r: Option<Formula>)
        ensures
            final(self).formulas() == old(self).formulas().insert(label, formula),
            final(self)@ == old(self)@.insert(label, formula@),
            final(self).typecodes() == old(self).typecodes().insert(
                label,
                formula.spec_typecode(),
            ),
            r == (if old(self).formulas().contains_key(label) {
                Some(old(self).formulas()[label])
            } else {
                None
            }),
    {
        let ghost f = formula;
        let r = self.0.insert(label, formula);
        assert(self@ =~= old(self)@.insert(label, f@));
        assert(self.typecodes() =~= old(self).typecodes().insert(label, f.spec_typecode()));
        r
    }

    /// Adds all the provided substitutions to this one; where both bind a
    /// variable, the provided one wins.
    pub fn extend(&mut self, substitutions: &Substitutions)
        ensures
            final(self)@ == old(self)@.union_prefer_right(substitutions@),
            final(self).typecodes() == old(self).typecodes().union_prefer_right(
                substitutions.typecodes(),
            ),
    {
        let ghost other = substitutions.0@;
        let ghost mut done: Set<Label> = Set::empty();
        let keys = substitutions.0.keys();
        for k in it: keys
            invariant
                other == substitutions.0@,
                it.seq().unref().to_set() == other.dom(),
                forall|j: int| 0 <= j < it.index() ==> done.contains(*#[trigger] it.seq()[j]),
                done.subset_of(other.dom()),
                it.index() == it.seq().len() ==> done =~= other.dom(),
                self@ == old(self)@.union_prefer_right(substitutions@.restrict(done)),
                self.typecodes() == old(self).typecodes().union_prefer_right(
                    substitutions.typecodes().restrict(done),
                ),
        {
            proof {
                assert(it.seq().unref()[it.index()] == *k);
                assert(it.seq().unref().to_set().contains(*k));
            }
            let f = substitutions.0.get(k).unwrap();
            let g = f.duplicate();
            let ghost prev = *self;
            self.0.insert(*k, g);
            proof {
                assert(*f == substitutions.0@[*k]);
                assert(self@ =~= prev@.insert(*k, g@));
                assert(self.typecodes() =~= prev.typecodes().insert(*k, g.spec_typecode()));
                done = done.insert(*k);
                if it.index() + 1 == it.seq().len() {
                    assert forall|l: Label| other.dom().contains(l) implies done.contains(l) by {
                        assert(it.seq().unref().to_set().contains(l));
                        let j = choose|j: int|
                            0 <= j < it.seq().unref().len() && it.seq().unref()[j] == l;
                        if j < it.index() {
                            assert(done.contains(*it.seq()[j]));
                        }
                    }
                }
                assert(self@ =~= old(self)@.union_prefer_right(substitutions@.restrict(done)));
                assert(self.typecodes() =~= old(self).typecodes().union_prefer_right(
                    substitutions.typecodes().restrict(done),
                ));
            }
        }
        assert(substitutions@.restrict(done) =~= substitutions@);
        assert(substitutions.typecodes().restrict(done) =~= substitutions.typecodes());
    }
}

impl Default for Substitutions {
    fn default() -> (r: Substitutions)
        ensures
            r@ == Map::<Label, Term>::empty(),
            r.formulas() == Map::<Label, Formula>::empty(),
    {
        let r = Substitutions(HashMap::new());
        assert(r@ =~= Map::<Label, Term>::empty());
        r
    }
}

/// A parsed formula, in a tree format which is convenient to perform unifications.
#[derive(Debug)]
pub struct Formula {
    typecode: TypeCode,
    tree: Arc<Tree>,
    root: NodeId,
    variables: Bitset,
}

impl Clone for Formula {
    fn clone(&self) -> (r: Formula)
        ensures
            r@ == self@,
            r.spec_typecode() == self.spec_typecode(),
    {
        self.duplicate()
    }
}

impl View for Formula {
    type V = Term;

    closed spec fn view(&self) -> Term {
        term_at(*self.tree, self.variables, self.root as nat)
    }
}

impl Formula {
    #[verifier::type_invariant]
    closed spec fn inv(self) -> bool {
        &&& self.tree.wf()
        &&& self.tree.small_arity()
        &&& self.root < self.tree.len()
    }

    /// The typecode of the formula.
    pub closed spec fn spec_typecode(&self) -> TypeCode {
        self.typecode
    }

    /// The term rooted at node `id` of this formula's tree.
    closed spec fn term_of(&self, id: nat) -> Term {
        term_at(*self.tree, self.variables, id)
    }

    /// An equal formula sharing the same tree.
    fn duplicate(&self) -> (r: Formula)
        ensures
            r@ == self@,
            r.spec_typecode() == self.spec_typecode(),
    {
        proof {
            use_type_invariant(self);
        }
        let variables = self.variables.copy();
        let r = Formula { typecode: self.typecode, tree: share_tree(&self.tree), root: self.root, variables };
        proof {
            lemma_term_at_frame(&*self.tree, self.variables, &*r.tree, r.variables, self.root as nat);
        }
        r
    }

    /// Returns the label obtained when following the given path from the
    /// root. Each element of the path gives the index of the child to
    /// retrieve; the empty path gives the label of the root.
    pub fn get_by_path(&self, path: &[usize]) -> (r: Option<Label>)
        ensures
            r == label_at(self@, path@),
    {
        proof {
            use_type_invariant(self);
        }
        let mut node_id = self.root;
        let n = path.len();
        assert(path@.skip(0) =~= path@);
        for k in 0..n
            invariant
                n == path@.len(),
                self.tree.wf(),
                node_id < self.tree.len(),
                label_at(self@, path@) == label_at(self.term_of(node_id as nat), path@.skip(k as int)),
        {
            let ghost p = path@.skip(k as int);
            assert(p.drop_first() =~= path@.skip(k + 1));
            proof {
                lemma_term_at_args(&*self.tree, self.variables, node_id as nat);
            }
            match self.tree.nth_child(node_id, path[k]) {
                Some(c) => {
                    node_id = c;
                },
                None => {
                    return None;
                },
            }
        }
        proof {
            lemma_term_at_args(&*self.tree, self.variables, node_id as nat);
        }
        Some(self.tree.item(node_id))
    }

    /// Returns whether the node given by `node_id` is a variable.
    fn is_variable(&self, node_id: NodeId) -> (r: bool)
        ensures
            r == self.variables.has(node_id as nat),
    {
        self.variables.has_bit(node_id)
    }

    /// Returns a subformula, with its root at the given `node_id`, sharing
    /// this formula's tree and typecode.
    fn sub_formula(&self, node_id: NodeId) -> (r: Formula)
        requires
            node_id < self.tree.len(),
        ensures
            r@ == self.term_of(node_id as nat),
            r.spec_typecode() == self.spec_typecode(),
    {
        proof {
            use_type_invariant(self);
        }
        let variables = self.variables.copy();
        let r = Formula { typecode: self.typecode, tree: share_tree(&self.tree), root: node_id, variables };
        proof {
            lemma_term_at_frame(&*self.tree, self.variables, &*r.tree, r.variables, node_id as nat);
        }
        r
    }

    /// Equality of sub-formulas.
    fn sub_eq(&self, node_id: NodeId, other: &Formula, other_node_id: NodeId) -> (r: bool)
        requires
            node_id < self.tree.len(),
            other_node_id < other.tree.len(),
        ensures
            r == sub_equal(self.term_of(node_id as nat), other.term_of(other_node_id as nat)),
        decreases node_id,
    {
        proof {
            use_type_invariant(self);
            use_type_invariant(other);
            lemma_term_at_args(&*self.tree, self.variables, node_id as nat);
            lemma_term_at_args(&*other.tree, other.variables, other_node_id as nat);
        }
        let ghost a = self.term_of(node_id as nat);
        let ghost b = other.term_of(other_node_id as nat);
        if same_tree(&self.tree, &other.tree) && node_id == other_node_id {
            proof {
                lemma_sub_equal_flags(&*self.tree, self.variables, other.variables, node_id as nat);
            }
            return true;
        }
        if self.tree.item(node_id) != other.tree.item(other_node_id) {
            return false;
        }
        let n1 = self.tree.nb_children(node_id);
        let n2 = other.tree.nb_children(other_node_id);
        if n1 != n2 {
            return false;
        }
        for i in 0..n1
            invariant
                n1 == a.args.len(),
                n2 == b.args.len(),
                n1 == n2,
                node_id < self.tree.len(),
                other_node_id < other.tree.len(),
                self.tree.wf(),
                other.tree.wf(),
                n1 == self.tree.children(node_id as nat).len(),
                n2 == other.tree.children(other_node_id as nat).len(),
                a == self.term_of(node_id as nat),
                b == other.term_of(other_node_id as nat),
                forall|j: int| #![trigger a.args[j]] 0 <= j < n1 ==> a.args[j] == self.term_of(self.tree.children(node_id as nat)[j] as nat),
                forall|j: int| #![trigger b.args[j]] 0 <= j < n2 ==> b.args[j] == other.term_of(other.tree.children(other_node_id as nat)[j] as nat),
                forall|j: int| #![trigger a.args[j]] 0 <= j < i ==> sub_equal(a.args[j], b.args[j]),
        {
            let c1 = self.tree.child(node_id, i);
            let c2 = other.tree.child(other_node_id, i);
            assert(a.args[i as int] == self.term_of(c1 as nat));
            assert(b.args[i as int] == other.term_of(c2 as nat));
            if !self.sub_eq(c1, other, c2) {
                return false;
            }
        }
        true
    }

    /// Unify this formula with the given formula model.
    /// If successful, this returns the substitutions which need to be made in
    /// `other` in order to match this formula. Each bound formula carries the
    /// typecode of this formula.
    pub fn unify(&self, other: &Formula) -> (r: Option<Box<Substitutions>>)
        ensures
            match r {
                Some(b) => {
                    &&& unify_term(self@, other@, Map::empty()) == Some(b@)
                    &&& b.typecodes().dom() == b@.dom()
                    &&& forall|l: Label|
                        #[trigger] b.typecodes().contains_key(l) ==> b.typecodes()[l]
                            == self.spec_typecode()
                },
                None => unify_term(self@, other@, Map::empty()) is None,
            },
    {
        proof {
            use_type_invariant(self);
            use_type_invariant(other);
        }
        let mut substitutions = Substitutions::default();
        match self.sub_unify(self.root, other, other.root, &mut substitutions) {
            Some(()) => {
                proof {
                    substitutions.lemma_views();
                }
                Some(Box::new(substitutions))
            },
            None => None,
        }
    }

    /// Unify a sub-formula.
    fn sub_unify(
        &self,
        node_id: NodeId,
        other: &Formula,
        other_node_id: NodeId,
        substitutions: &mut Substitutions,
    ) -> (r: Option<()>)
        requires
            node_id < self.tree.len(),
            other_node_id < other.tree.len(),
        ensures
            r is Some <==> unify_term(
                self.term_of(node_id as nat),
                other.term_of(other_node_id as nat),
                old(substitutions)@,
            ) is Some,
            r is Some ==> Some(final(substitutions)@) == unify_term(
                self.term_of(node_id as nat),
                other.term_of(other_node_id as nat),
                old(substitutions)@,
            ),
            old(substitutions)@.submap_of(final(substitutions)@),
            forall|l: Label|
                #[trigger] final(substitutions)@.contains_key(l) && !old(substitutions)@.contains_key(l)
                    ==> pattern_vars(other.term_of(other_node_id as nat)).contains(l),
            old(substitutions).typecodes().submap_of(final(substitutions).typecodes()),
            forall|l: Label|
                #[trigger] final(substitutions).typecodes().contains_key(l)
                    && !old(substitutions).typecodes().contains_key(l)
                    ==> final(substitutions).typecodes()[l] == self.spec_typecode(),
        decreases other_node_id,
    {
        proof {
            use_type_invariant(self);
            use_type_invariant(other);
            lemma_term_at_args(&*self.tree, self.variables, node_id as nat);
            lemma_term_at_args(&*other.tree, other.variables, other_node_id as nat);
            substitutions.lemma_views();
        }
        let ghost s = self.term_of(node_id as nat);
        let ghost o = other.term_of(other_node_id as nat);
        if other.is_variable(other_node_id) {
            let label = other.tree.item(other_node_id);
            match substitutions.0.get(&label) {
                Some(formula) => {
                    proof {
                        use_type_invariant(formula);
                    }
                    if self.sub_eq(node_id, formula, formula.root) {
                        Some(())
                    } else {
                        None
                    }
                },
                None => {
                    let f = self.sub_formula(node_id);
                    substitutions.insert(label, f);
                    Some(())
                },
            }
        } else if self.tree.item(node_id) == other.tree.item(other_node_id)
            && self.tree.nb_children(node_id) == other.tree.nb_children(other_node_id) {
            let n1 = self.tree.nb_children(node_id);
            let n2 = other.tree.nb_children(other_node_id);
            let n = n1;
            for i in 0..n
                invariant
                    n == n1,
                    n == n2,
                    n1 == s.args.len(),
                    n2 == o.args.len(),
                    node_id < self.tree.len(),
                    other_node_id < other.tree.len(),
                    self.tree.wf(),
                    other.tree.wf(),
                    n1 == self.tree.children(node_id as nat).len(),
                    n2 == other.tree.children(other_node_id as nat).len(),
                    s == self.term_of(node_id as nat),
                    o == other.term_of(other_node_id as nat),
                    !o.is_var,
                    s.label == o.label,
                    forall|j: int| #![trigger s.args[j]] 0 <= j < n1 ==> s.args[j] == self.term_of(self.tree.children(node_id as nat)[j] as nat),
                    forall|j: int| #![trigger o.args[j]] 0 <= j < n2 ==> o.args[j] == other.term_of(other.tree.children(other_node_id as nat)[j] as nat),
                    unify_args(s.args, o.args, i as nat, old(substitutions)@) == Some(substitutions@),
                    old(substitutions)@.submap_of(substitutions@),
                    forall|l: Label|
                        #[trigger] substitutions@.contains_key(l) && !old(substitutions)@.contains_key(l)
                            ==> pattern_vars(o).contains(l),
                    old(substitutions).typecodes().submap_of(substitutions.typecodes()),
                    forall|l: Label|
                        #[trigger] substitutions.typecodes().contains_key(l)
                            && !old(substitutions).typecodes().contains_key(l) ==> substitutions.typecodes()[l] == self.spec_typecode(),
            {
                let c1 = self.tree.child(node_id, i);
                let c2 = other.tree.child(other_node_id, i);
                let ghost before = substitutions@;
                let ghost before_tc = substitutions.typecodes();
                let ghost oi = o.args[i as int];
                match self.sub_unify(c1, other, c2, substitutions) {
                    Some(()) => {},
                    None => {
                        proof {
                            lemma_bindings_kept(old(substitutions)@, before, substitutions@, o, oi);
                            assert(old(substitutions).typecodes().submap_of(substitutions.typecodes())) by {
                                assert(forall|l: Label| #[trigger] old(substitutions).typecodes().contains_key(l) ==> before_tc.contains_key(l));
                            }
                            assert(unify_args(s.args, o.args, (i + 1) as nat, old(substitutions)@) is None);
                            lemma_unify_args_none_extends(s.args, o.args, (i + 1) as nat, n as nat, old(substitutions)@);
                        }
                        return None;
                    },
                }
                assert(unify_args(s.args, o.args, (i + 1) as nat, old(substitutions)@) == Some(substitutions@));
                assert(old(substitutions).typecodes().submap_of(substitutions.typecodes())) by {
                    assert(forall|l: Label| #[trigger] old(substitutions).typecodes().contains_key(l) ==> before_tc.contains_key(l));
                }
                proof {
                    lemma_bindings_kept(old(substitutions)@, before, substitutions@, o, oi);
                }
            }
            Some(())
        } else {
            None
        }
    }

    /// Perform substitutions.
    /// This returns a new `Formula` object, built from this formula,
    /// where all instances of the variables specified in the substitutions are
    /// replaced by the corresponding formulas.
    pub fn substitute(&self, substitutions: &Substitutions) -> (r: Formula)
        ensures
            r@ == subst(self@, substitutions@),
            r.spec_typecode() == self.spec_typecode(),
    {
        proof {
            use_type_invariant(self);
        }
        let mut formula_builder = FormulaBuilder::new();
        self.sub_substitute(self.root, substitutions, &mut formula_builder);
        formula_builder.build(self.typecode)
    }

    /// Perform substitutions on a sub-formula, starting from the given `node_id`.
    fn sub_substitute(
        &self,
        node_id: NodeId,
        substitutions: &Substitutions,
        formula_builder: &mut FormulaBuilder,
    )
        requires
            node_id < self.tree.len(),
            old(formula_builder).wf(),
        ensures
            final(formula_builder).wf(),
            final(formula_builder).terms() == old(formula_builder).terms().push(
                subst(self.term_of(node_id as nat), substitutions@),
            ),
        decreases node_id,
    {
        proof {
            use_type_invariant(self);
            lemma_term_at_args(&*self.tree, self.variables, node_id as nat);
            substitutions.lemma_views();
        }
        let ghost t = self.term_of(node_id as nat);
        let ghost sigma = substitutions@;
        if self.is_variable(node_id) {
            if let Some(formula) = substitutions.0.get(&self.tree.item(node_id)) {
                proof {
                    use_type_invariant(formula);
                }
                formula.copy_sub_formula(formula.root, formula_builder);
                return;
            }
        }
        let mut children_count: u8 = 0;
        let n = self.tree.nb_children(node_id);
        for i in 0..n
            invariant
                n == t.args.len(),
                n <= 255,
                children_count == i,
                node_id < self.tree.len(),
                self.tree.wf(),
                n == self.tree.children(node_id as nat).len(),
                t == self.term_of(node_id as nat),
                sigma == substitutions@,
                forall|j: int| #![trigger t.args[j]] 0 <= j < n ==> t.args[j] == self.term_of(self.tree.children(node_id as nat)[j] as nat),
                formula_builder.wf(),
                formula_builder.terms() == old(formula_builder).terms() + Seq::new(
                    i as nat,
                    |j: int| subst(t.args[j], sigma),
                ),
        {
            let c = self.tree.child(node_id, i);
            self.sub_substitute(c, substitutions, formula_builder);
            children_count += 1;
            assert(formula_builder.terms() =~= old(formula_builder).terms() + Seq::new(
                (i + 1) as nat,
                |j: int| subst(t.args[j], sigma),
            ));
        }
        let ghost before = formula_builder.terms();
        formula_builder.reduce(self.tree.item(node_id), children_count, 0, self.is_variable(node_id));
        proof {
            let len = before.len();
            let start = len - n;
            assert(before.subrange(0, start) =~= old(formula_builder).terms());
            assert(before.subrange(start, len as int) =~= subst(t, sigma).args);
            assert(before.subrange(len as int, len as int) =~= Seq::<Term>::empty());
            assert(formula_builder.terms() =~= old(formula_builder).terms().push(subst(t, sigma)));
        }
    }

    /// Copy a sub-formula of this formula to a formula builder.
    fn copy_sub_formula(&self, node_id: NodeId, formula_builder: &mut FormulaBuilder)
        requires
            node_id < self.tree.len(),
            old(formula_builder).wf(),
        ensures
            final(formula_builder).wf(),
            final(formula_builder).terms() == old(formula_builder).terms().push(
                self.term_of(node_id as nat),
            ),
        decreases node_id,
    {
        proof {
            use_type_invariant(self);
            lemma_term_at_args(&*self.tree, self.variables, node_id as nat);
        }
        let ghost t = self.term_of(node_id as nat);
        let mut children_count: u8 = 0;
        let n = self.tree.nb_children(node_id);
        for i in 0..n
            invariant
                n == t.args.len(),
                n <= 255,
                children_count == i,
                node_id < self.tree.len(),
                self.tree.wf(),
                n == self.tree.children(node_id as nat).len(),
                t == self.term_of(node_id as nat),
                forall|j: int| #![trigger t.args[j]] 0 <= j < n ==> t.args[j] == self.term_of(self.tree.children(node_id as nat)[j] as nat),
                formula_builder.wf(),
                formula_builder.terms() == old(formula_builder).terms() + t.args.take(i as int),
        {
            let c = self.tree.child(node_id, i);
            self.copy_sub_formula(c, formula_builder);
            children_count += 1;
            assert(formula_builder.terms() =~= old(formula_builder).terms() + t.args.take(i + 1));
        }
        let ghost before = formula_builder.terms();
        formula_builder.reduce(self.tree.item(node_id), children_count, 0, self.is_variable(node_id));
        proof {
            let len = before.len();
            let start = len - n;
            assert(before.subrange(0, start) =~= old(formula_builder).terms());
            assert(before.subrange(start, len as int) =~= t.args);
            assert(before.subrange(len as int, len as int) =~= Seq::<Term>::empty());
            assert(formula_builder.terms() =~= old(formula_builder).terms().push(t));
        }
    }
}

impl PartialEq for Formula {
    fn eq(&self, other: &Self) -> (r: bool) {
        proof {
            use_type_invariant(self);
            use_type_invariant(other);
        }
        self.sub_eq(self.root, other, other.root)
    }
}

impl PartialEqSpecImpl for Formula {
    open spec fn obeys_eq_spec() -> bool {
        true
    }

    open spec fn eq_spec(&self, other: &Formula) -> bool {
        sub_equal(self@, other@)
    }
}

/// Bindings kept through two steps are kept; labels added by matching a
/// subterm of a model that is not a variable are variables the model binds.
proof fn lemma_bindings_kept(
    m0: Map<Label, Term>,
    m1: Map<Label, Term>,
    m2: Map<Label, Term>,
    o: Term,
    oi: Term,
)
    requires
        !o.is_var,
        o.args.contains(oi),
        m0.submap_of(m1),
        m1.submap_of(m2),
        forall|l: Label| #[trigger] m1.contains_key(l) && !m0.contains_key(l) ==> pattern_vars(o).contains(l),
        forall|l: Label| #[trigger] m2.contains_key(l) && !m1.contains_key(l) ==> pattern_vars(oi).contains(l),
    ensures
        m0.submap_of(m2),
        forall|l: Label| #[trigger] m2.contains_key(l) && !m0.contains_key(l) ==> pattern_vars(o).contains(l),
{
    assert forall|l: Label| #[trigger] m0.contains_key(l) implies m2.contains_key(l) && m2[l] == m0[l] by {
        assert(m0.dom().contains(l));
        assert(m1.dom().contains(l));
        assert(m1[l] == m0[l]);
        assert(m2.dom().contains(l));
        assert(m2[l] == m1[l]);
    }
    assert forall|l: Label| #[trigger] m2.contains_key(l) && !m0.contains_key(l) implies pattern_vars(o).contains(l) by {
        if !m1.contains_key(l) {
            let i = choose|i: int| 0 <= i < o.args.len() && o.args[i] == oi;
            assert(pattern_vars(o.args[i]).contains(l));
        }
    }
}

/// Once matching fails on a prefix of the subterms, it fails on every longer prefix.
proof fn lemma_unify_args_none_extends(
    ss: Seq<Term>,
    os: Seq<Term>,
    i: nat,
    n: nat,
    m: Map<Label, Term>,
)
    requires
        unify_args(ss, os, i, m) is None,
        i <= n,
        n <= os.len(),
    ensures
        unify_args(ss, os, n, m) is None,
    decreases n - i,
{
    if i < n {
        lemma_unify_args_none_extends(ss, os, i, (n - 1) as nat, m);
    }
}

impl Formula {
    /// Augment a formula with a database reference, to produce a [`FormulaRef`],
    /// which can be written out as a string of symbols.
    pub fn as_ref<'a>(&'a self, db: &'a Database) -> (r: FormulaRef<'a>)
        ensures
            r.spec_db() == *db,
            r.spec_formula() == *self,
    {
        FormulaRef { db, formula: self }
    }

    /// Appends to `out` the debug rendering of the subformula at `node_id`:
    /// the name of its label, followed by those of its children, separated by
    /// `", "`, between parentheses, when it has children.
    fn debug_into(&self, db: &Database, node_id: NodeId, out: &mut Vec<u8>)
        requires
            node_id < self.tree.len(),
            labels_named(*db, self.term_of(node_id as nat)),
        ensures
            final(out)@ == old(out)@ + debug_term(*db, self.term_of(node_id as nat)),
        decreases node_id,
    {
        proof {
            use_type_invariant(self);
            lemma_term_at_args(&*self.tree, self.variables, node_id as nat);
        }
        let ghost t = self.term_of(node_id as nat);
        let name = db.atom_name(self.tree.item(node_id));
        out.extend_from_slice(name);
        let n = self.tree.nb_children(node_id);
        if n > 0 {
            out.push(40u8);
            let ghost mid = out@;
            for i in 0..n
                invariant
                    node_id < self.tree.len(),
                    self.tree.wf(),
                    t == self.term_of(node_id as nat),
                    n == t.args.len(),
                    n == self.tree.children(node_id as nat).len(),
                    forall|j: int| #![trigger t.args[j]] 0 <= j < n ==> t.args[j] == self.term_of(self.tree.children(node_id as nat)[j] as nat),
                    labels_named(*db, t),
                    out@ == mid + debug_list(*db, t.args, i as nat),
            {
                if i > 0 {
                    out.push(44u8);
                    out.push(32u8);
                }
                let child = self.tree.child(node_id, i);
                assert(labels_named(*db, t.args[i as int]));
                self.debug_into(db, child, out);
                assert(out@ =~= mid + debug_list(*db, t.args, (i + 1) as nat));
            }
            out.push(41u8);
        }
        assert(out@ =~= old(out)@ + debug_term(*db, t));
    }
}

/// Every label of `t` has a name in `db`.
pub open spec fn labels_named(db: Database, t: Term) -> bool
    decreases t,
{
    &&& db.name(t.label) is Some
    &&& forall|i: int| #![trigger t.args[i]] 0 <= i < t.args.len() ==> labels_named(db, t.args[i])
}

/// The debug rendering of `t`: the name of its label, followed, when it has
/// subterms, by theirs between parentheses, separated by `", "`.
pub open spec fn debug_term(db: Database, t: Term) -> Seq<u8>
    decreases t, 0nat,
{
    db.name(t.label).unwrap() + if t.args.len() == 0 {
        Seq::empty()
    } else {
        seq![40u8] + debug_list(db, t.args, t.args.len()) + seq![41u8]
    }
}

/// The debug renderings of the first `n` terms of `ts`, separated by `", "`.
pub open spec fn debug_list(db: Database, ts: Seq<Term>, n: nat) -> Seq<u8>
    decreases ts, n,
{
    if n == 0 || n > ts.len() {
        Seq::empty()
    } else if n == 1 {
        debug_term(db, ts[0])
    } else {
        debug_list(db, ts, (n - 1) as nat) + seq![44u8, 32u8] + debug_term(db, ts[n - 1])
    }
}

/// `syms` written one after the other, each after a space.
pub open spec fn spaced_names(db: Database, syms: Seq<Symbol>) -> Seq<u8>
    decreases syms.len(),
{
    if syms.len() == 0 {
        Seq::empty()
    } else {
        seq![32u8] + db.name(syms[0]).unwrap() + spaced_names(db, syms.drop_first())
    }
}

/// Every floating hypothesis among `hyps` refers to one of `n` subterms.
pub open spec fn floats_in_range(hyps: Seq<Hyp>, n: nat) -> bool {
    forall|j: int|
        #![trigger hyps[j]]
        0 <= j < hyps.len() ==> match hyps[j] {
            Hyp::Floating(i) => i < n,
            Hyp::Essential => true,
        }
}

/// For each floating hypothesis among `hyps`, in order, the item of the
/// subterm it refers to; essential hypotheses give nothing.
pub open spec fn floating_items<I>(hyps: Seq<Hyp>, ch: Seq<I>) -> Seq<I>
    decreases hyps.len(),
{
    if hyps.len() == 0 {
        Seq::empty()
    } else {
        floating_items(hyps.drop_last(), ch) + match hyps.last() {
            Hyp::Floating(i) => seq![ch[i as int]],
            Hyp::Essential => Seq::empty(),
        }
    }
}

/// The buffer after the syntax proof of `t` is built from `buf`: the proofs of
/// its subterms, left to right, then `t` itself appended.
pub open spec fn proof_buffer(db: Database, t: Term, buf: Seq<u8>) -> Seq<u8>
    decreases t, 0nat,
{
    encode(db, proof_buffer_args(db, t.args, t.args.len(), buf), flat(db, t))
}

/// The buffer after the syntax proofs of the first `n` terms of `ts`.
pub open spec fn proof_buffer_args(db: Database, ts: Seq<Term>, n: nat, buf: Seq<u8>) -> Seq<u8>
    decreases ts, n,
{
    if n == 0 || n > ts.len() {
        buf
    } else {
        proof_buffer(db, ts[n - 1], proof_buffer_args(db, ts, (n - 1) as nat, buf))
    }
}

/// The syntax proof of `t` can be built from `buf`: every node has a
/// statement whose floating hypotheses refer to existing subterms, every
/// subformula can be written out with named symbols, and the buffer can
/// receive each of them in turn.
pub open spec fn provable(db: Database, t: Term, buf: Seq<u8>) -> bool
    decreases t, 0nat,
{
    &&& db.statement(t.label) is Some
    &&& floats_in_range(db.statement(t.label).unwrap().hypotheses@, t.args.len())
    &&& flattens(db, t)
    &&& all_named(db, flat(db, t))
    &&& provable_args(db, t.args, t.args.len(), buf)
    &&& encodable(db, proof_buffer_args(db, t.args, t.args.len(), buf), flat(db, t))
}

/// The syntax proofs of the first `n` terms of `ts` can be built from `buf`.
pub open spec fn provable_args(db: Database, ts: Seq<Term>, n: nat, buf: Seq<u8>) -> bool
    decreases ts, n,
{
    n == 0 || (n <= ts.len() && provable_args(db, ts, (n - 1) as nat, buf) && provable(
        db,
        ts[n - 1],
        proof_buffer_args(db, ts, (n - 1) as nat, buf),
    ))
}

/// The items of the subterms of `t`, when the steps of `t`'s proof start at
/// index `b` of `items`: each subterm's proof ends with its own step.
pub open spec fn child_items<I>(t: Term, b: nat, items: Seq<I>) -> Seq<I> {
    Seq::new(t.args.len(), |k: int| items[b + sum_sizes(t.args, (k + 1) as nat) - 1])
}

/// The steps of the syntax proof of `t`, built from `buf`, whose items start
/// at index `b` of `items`: the steps of its subterms, left to right, then its
/// own step, with the address of its statement, the items of its subterms in
/// the order of the statement's floating hypotheses, and the bytes that `t`
/// appended.
pub open spec fn proof_steps<I>(db: Database, t: Term, b: nat, buf: Seq<u8>, items: Seq<I>) -> Seq<
    ProofStep<I>,
>
    decreases t, 0nat,
{
    let inner = proof_buffer_args(db, t.args, t.args.len(), buf);
    let outer = proof_buffer(db, t, buf);
    proof_steps_args(db, t.args, t.args.len(), b, buf, items).push(
        ProofStep {
            address: db.statement(t.label).unwrap().address,
            hyps: floating_items(db.statement(t.label).unwrap().hypotheses@, child_items(t, b, items)),
            expr: outer.subrange(inner.len() as int, outer.len() as int),
        },
    )
}

/// The steps of the syntax proofs of the first `n` terms of `ts`.
pub open spec fn proof_steps_args<I>(
    db: Database,
    ts: Seq<Term>,
    n: nat,
    b: nat,
    buf: Seq<u8>,
    items: Seq<I>,
) -> Seq<ProofStep<I>>
    decreases ts, n,
{
    if n == 0 || n > ts.len() {
        Seq::empty()
    } else {
        proof_steps_args(db, ts, (n - 1) as nat, b, buf, items) + proof_steps(
            db,
            ts[n - 1],
            b + sum_sizes(ts, (n - 1) as nat),
            proof_buffer_args(db, ts, (n - 1) as nat, buf),
            items,
        )
    }
}

/// Each term's sum of sizes grows with the number of terms counted.
proof fn lemma_sum_sizes_mono(ts: Seq<Term>, k: nat, n: nat)
    requires
        k <= n <= ts.len(),
    ensures
        sum_sizes(ts, k) <= sum_sizes(ts, n),
    decreases n,
{
    if k < n {
        lemma_sum_sizes_mono(ts, k, (n - 1) as nat);
    }
}

/// Counting one more term adds its size, which is at least one.
proof fn lemma_sum_sizes_step(ts: Seq<Term>, k: nat)
    requires
        k < ts.len(),
    ensures
        sum_sizes(ts, k + 1) == sum_sizes(ts, k) + size(ts[k as int]),
        size(ts[k as int]) >= 1,
{
}

/// A proof has one step per node.
proof fn lemma_proof_steps_len<I>(db: Database, t: Term, b: nat, buf: Seq<u8>, items: Seq<I>)
    ensures
        proof_steps(db, t, b, buf, items).len() == size(t),
    decreases t, 0nat,
{
    lemma_proof_steps_args_len(db, t.args, t.args.len(), b, buf, items);
}

proof fn lemma_proof_steps_args_len<I>(
    db: Database,
    ts: Seq<Term>,
    n: nat,
    b: nat,
    buf: Seq<u8>,
    items: Seq<I>,
)
    requires
        n <= ts.len(),
    ensures
        proof_steps_args(db, ts, n, b, buf, items).len() == sum_sizes(ts, n),
    decreases ts, n,
{
    if n > 0 {
        let k = (n - 1) as nat;
        lemma_proof_steps_args_len(db, ts, k, b, buf, items);
        lemma_proof_steps_len(
            db,
            ts[k as int],
            b + sum_sizes(ts, k),
            proof_buffer_args(db, ts, k, buf),
            items,
        );
    }
}

/// The steps of a proof depend only on the items of its own steps.
proof fn lemma_proof_steps_prefix<I>(
    db: Database,
    t: Term,
    b: nat,
    buf: Seq<u8>,
    i1: Seq<I>,
    i2: Seq<I>,
)
    requires
        b + size(t) <= i1.len() <= i2.len(),
        forall|j: int| 0 <= j < i1.len() ==> #[trigger] i1[j] == i2[j],
    ensures
        proof_steps(db, t, b, buf, i1) == proof_steps(db, t, b, buf, i2),
    decreases t, 0nat,
{
    lemma_proof_steps_args_prefix(db, t.args, t.args.len(), b, buf, i1, i2);
    assert(size(t) == 1 + sum_sizes(t.args, t.args.len()));
    assert forall|k: int| 0 <= k < t.args.len() implies #[trigger] child_items(t, b, i1)[k]
        == child_items(t, b, i2)[k] by {
        lemma_sum_sizes_mono(t.args, (k + 1) as nat, t.args.len());
        lemma_sum_sizes_step(t.args, k as nat);
    }
    assert(child_items(t, b, i1) =~= child_items(t, b, i2));
}

proof fn lemma_proof_steps_args_prefix<I>(
    db: Database,
    ts: Seq<Term>,
    n: nat,
    b: nat,
    buf: Seq<u8>,
    i1: Seq<I>,
    i2: Seq<I>,
)
    requires
        n <= ts.len(),
        b + sum_sizes(ts, n) <= i1.len() <= i2.len(),
        forall|j: int| 0 <= j < i1.len() ==> #[trigger] i1[j] == i2[j],
    ensures
        proof_steps_args(db, ts, n, b, buf, i1) == proof_steps_args(db, ts, n, b, buf, i2),
    decreases ts, n,
{
    if n > 0 {
        let k = (n - 1) as nat;
        lemma_proof_steps_args_prefix(db, ts, k, b, buf, i1, i2);
        lemma_proof_steps_prefix(
            db,
            ts[k as int],
            b + sum_sizes(ts, k),
            proof_buffer_args(db, ts, k, buf),
            i1,
            i2,
        );
    }
}

/// Building the proofs of the first `n` terms is possible only if building
/// those of fewer is.
proof fn lemma_provable_args_prefix(db: Database, ts: Seq<Term>, k: nat, n: nat, buf: Seq<u8>)
    requires
        k <= n,
        provable_args(db, ts, n, buf),
    ensures
        provable_args(db, ts, k, buf),
    decreases n,
{
    if k < n {
        lemma_provable_args_prefix(db, ts, k, (n - 1) as nat, buf);
    }
}

/// One step stored by a [`ProofBuilder`]: the address of the statement it
/// applies, what stands for the proofs of its hypotheses, and the string of
/// the formula it proves.
pub struct ProofStep<I> {
    pub address: StatementAddress,
    pub hyps: Seq<I>,
    pub expr: Seq<u8>,
}

/// Builds proof trees: each call stores one step, with the address of the
/// statement it applies, the trees of its hypotheses, and the range of `pool`
/// that holds the formula it proves, and returns what stands for it.
pub trait ProofBuilder {
    /// What stands for a stored proof tree.
    type Item: Copy;

    /// The steps stored so far, in order.
    spec fn steps(&self) -> Seq<ProofStep<Self::Item>>;

    /// What each call of `build` returned so far, in order.
    spec fn items(&self) -> Seq<Self::Item>;

    /// Stores a proof step and returns what stands for it.
    fn build(
        &mut self,
        addr: StatementAddress,
        trees: Vec<Self::Item>,
        pool: &[u8],
        expr: Range<usize>,
    ) -> (r: Self::Item)
        requires
            expr.start <= expr.end <= pool@.len(),
        ensures
            final(self).steps() == old(self).steps().push(
                ProofStep {
                    address: addr,
                    hyps: trees@,
                    expr: pool@.subrange(expr.start as int, expr.end as int),
                },
            ),
            final(self).items() == old(self).items().push(r),
    ;
}

/// A proof step as a [`StepList`] stores it.
#[derive(Clone, Debug)]
pub struct StoredStep {
    pub address: StatementAddress,
    pub hyps: Vec<usize>,
    pub expr: Vec<u8>,
}

/// A [`ProofBuilder`] that keeps every step in a list and stands for each by
/// its index in the list.
#[derive(Clone, Debug)]
pub struct StepList {
    pub steps: Vec<StoredStep>,
}

impl StepList {
    /// An empty list.
    pub fn new() -> (r: StepList)
        ensures
            r.steps@.len() == 0,
    {
        StepList { steps: Vec::new() }
    }
}

impl ProofBuilder for StepList {
    type Item = usize;

    open spec fn steps(&self) -> Seq<ProofStep<usize>> {
        self.steps@.map_values(
            |s: StoredStep| ProofStep { address: s.address, hyps: s.hyps@, expr: s.expr@ },
        )
    }

    open spec fn items(&self) -> Seq<usize> {
        Seq::new(self.steps@.len(), |i: int| i as usize)
    }

    fn build(&mut self, addr: StatementAddress, trees: Vec<usize>, pool: &[u8], expr: Range<usize>) -> (r: usize) {
        let mut bytes: Vec<u8> = Vec::new();
        let mut k = expr.start;
        while k < expr.end
            invariant
                expr.start <= k <= expr.end <= pool@.len(),
                bytes@ == pool@.subrange(expr.start as int, k as int),
            decreases expr.end - k,
        {
            bytes.push(pool[k]);
            k = k + 1;
            assert(bytes@ =~= pool@.subrange(expr.start as int, k as int));
        }
        let idx = self.steps.len();
        let ghost t = trees@;
        self.steps.push(StoredStep { address: addr, hyps: trees, expr: bytes });
        assert(self.steps() =~= old(self).steps().push(
            ProofStep { address: addr, hyps: t, expr: pool@.subrange(expr.start as int, expr.end as int) },
        ));
        assert(self.items() =~= old(self).items().push(idx));
        idx
    }
}

/// A [`Formula`] reference in the context of a [`Database`].
/// This allows the values in the [`Formula`] to be resolved.
#[derive(Clone, Copy)]
pub struct FormulaRef<'a> {
    db: &'a Database,
    formula: &'a Formula,
}

impl<'a> FormulaRef<'a> {
    /// The database.
    pub closed spec fn spec_db(&self) -> Database {
        *self.db
    }

    /// The formula.
    pub closed spec fn spec_formula(&self) -> Formula {
        *self.formula
    }

    /// The symbols of the formula, the typecode left out.
    pub open spec fn symbols(&self) -> Seq<Symbol> {
        flat(self.spec_db(), self.spec_formula()@)
    }

    /// The formula.
    pub fn formula(&self) -> (r: &'a Formula)
        ensures
            *r == self.spec_formula(),
    {
        self.formula
    }

    /// Convert the formula back to a flat list of symbols.
    /// This is slow and shall not normally be called except for showing a result to the user.
    pub fn iter(self) -> (r: Flatten<'a>)
        requires
            flattens(self.spec_db(), self.spec_formula()@),
        ensures
            r.wf(),
            r@ == self.symbols(),
    {
        proof {
            use_type_invariant(self.formula);
        }
        let mut f = Flatten { formula: self.formula, db: self.db, stack: Vec::new() };
        f.step_into(self.formula.root);
        assert(f.stack@.drop_last() =~= Seq::<Frame>::empty());
        assert(f.stack@.last() == Frame { node: self.formula.root, token: 1, child: 0 });
        assert(rest_of(*f.db, *f.formula, f.stack@.drop_last()) == Seq::<Symbol>::empty());
        assert(f.formula.term_of(self.formula.root as nat) == self.formula@);
        assert(f@ =~= self.symbols());
        f
    }

    /// Appends this formula to the provided stack buffer.
    ///
    /// The [`ProofBuilder`] structure uses a dense representation of formulas as byte strings,
    /// using the high bit to mark the end of each token.
    /// This function creates such a byte string, stores it in the provided buffer,
    /// and returns the range the newly added string occupies on the buffer.
    pub fn append_to_stack_buffer(self, stack_buffer: &mut Vec<u8>) -> (r: Range<usize>)
        requires
            flattens(self.spec_db(), self.spec_formula()@),
            all_named(self.spec_db(), self.symbols()),
            encodable(self.spec_db(), old(stack_buffer)@, self.symbols()),
        ensures
            final(stack_buffer)@ == encode(self.spec_db(), old(stack_buffer)@, self.symbols()),
            r.start == old(stack_buffer)@.len(),
            r.end == final(stack_buffer)@.len(),
            r.start <= r.end,
    {
        let tos = stack_buffer.len();
        let mut it = self.iter();
        let ghost syms = self.symbols();
        let ghost db = self.spec_db();
        loop
            invariant
                syms == self.symbols(),
                db == self.spec_db(),
                it.wf(),
                all_named(db, syms),
                it@ == syms.skip(syms.len() - it@.len()),
                it@.len() <= syms.len(),
                encode(db, old(stack_buffer)@, syms) == encode(db, stack_buffer@, it@),
                stack_buffer@.len() >= old(stack_buffer)@.len(),
                encodable(db, stack_buffer@, it@),
            ensures
                it@.len() == 0,
            decreases it@.len(),
        {
            let ghost rest = it@;
            let symbol = match it.next() {
                Some(symbol) => symbol,
                None => {
                    break;
                },
            };
            assert(rest.drop_first() =~= syms.skip(syms.len() - it@.len()));
            assert(db.name(symbol) is Some) by {
                assert(rest[0] == syms[syms.len() - rest.len()]);
            }
            let ghost prev = stack_buffer@;
            let name = self.db.atom_name(symbol);
            stack_buffer.extend_from_slice(name);
            assert(stack_buffer@ =~= prev + db.name(symbol).unwrap());
            let last = stack_buffer.len() - 1;
            let b = stack_buffer[last];
            stack_buffer.set(last, b | 0x80u8);
            assert(stack_buffer@ == encode_symbol(db, prev, symbol));
            assert(encode(db, prev, rest) == encode(db, stack_buffer@, it@));
        }
        let n_tos = stack_buffer.len();
        tos..n_tos
    }

    /// Builds the syntax proof for this formula.
    ///
    /// In Metamath, it is possible to write proofs that a given formula is a well-formed formula.
    /// This method builds such a syntax proof for the formula with `arr`, one step
    /// per node, the steps of the subformulas before the step that uses them,
    /// and returns what `arr` gives for the last step, that of the whole formula.
    /// Before each step is built, its subformula is appended to `stack_buffer`,
    /// and the range it occupies is handed to `arr`.
    pub fn build_syntax_proof<B: ProofBuilder>(self, stack_buffer: &mut Vec<u8>, arr: &mut B) -> (r:
        B::Item)
        requires
            provable(self.spec_db(), self.spec_formula()@, old(stack_buffer)@),
        ensures
            final(stack_buffer)@ == proof_buffer(self.spec_db(), self.spec_formula()@, old(stack_buffer)@),
            final(arr).items().len() == old(arr).items().len() + size(self.spec_formula()@),
            final(arr).items().subrange(0, old(arr).items().len() as int) == old(arr).items(),
            final(arr).steps() == old(arr).steps() + proof_steps(
                self.spec_db(),
                self.spec_formula()@,
                old(arr).items().len(),
                old(stack_buffer)@,
                final(arr).items(),
            ),
            r == final(arr).items().last(),
    {
        proof {
            use_type_invariant(self.formula);
        }
        self.sub_build_syntax_proof(self.formula.root, stack_buffer, arr)
    }

    /// Stores and returns what stands for the syntax proof of the sub-formula
    /// with root at the given `node_id`. Children nodes are stored in the order
    /// of appearance of the variables in the formula, while proofs require them
    /// in the order of the mandatory floating hypotheses: this maps one to the other.
    fn sub_build_syntax_proof<B: ProofBuilder>(
        self,
        node_id: NodeId,
        stack_buffer: &mut Vec<u8>,
        arr: &mut B,
    ) -> (r: B::Item)
        requires
            node_id < self.formula.tree.len(),
            provable(self.spec_db(), self.formula.term_of(node_id as nat), old(stack_buffer)@),
        ensures
            final(stack_buffer)@ == proof_buffer(
                self.spec_db(),
                self.formula.term_of(node_id as nat),
                old(stack_buffer)@,
            ),
            final(arr).items().len() == old(arr).items().len() + size(
                self.formula.term_of(node_id as nat),
            ),
            final(arr).items().subrange(0, old(arr).items().len() as int) == old(arr).items(),
            final(arr).steps() == old(arr).steps() + proof_steps(
                self.spec_db(),
                self.formula.term_of(node_id as nat),
                old(arr).items().len(),
                old(stack_buffer)@,
                final(arr).items(),
            ),
            r == final(arr).items().last(),
        decreases node_id,
    {
        proof {
            use_type_invariant(self.formula);
            lemma_term_at_args(&*self.formula.tree, self.formula.variables, node_id as nat);
        }
        let ghost db = self.spec_db();
        let ghost t = self.formula.term_of(node_id as nat);
        let ghost buf0 = stack_buffer@;
        let ghost b = arr.items().len();
        let label = self.formula.tree.item(node_id);
        let st = self.db.statement_of(label).unwrap();
        let address = st.address;
        let n = self.formula.tree.nb_children(node_id);
        let mut children_hyps: Vec<B::Item> = Vec::new();
        assert(arr.items().subrange(0, b as int) =~= old(arr).items());
        assert(arr.steps() =~= old(arr).steps() + proof_steps_args(db, t.args, 0, b, buf0, arr.items()));
        for i in 0..n
            invariant
                node_id < self.formula.tree.len(),
                self.formula.tree.wf(),
                t == self.formula.term_of(node_id as nat),
                n == t.args.len(),
                n == self.formula.tree.children(node_id as nat).len(),
                forall|j: int| #![trigger t.args[j]] 0 <= j < n ==> t.args[j] == self.formula.term_of(self.formula.tree.children(node_id as nat)[j] as nat),
                db == self.spec_db(),
                provable(db, t, buf0),
                b == old(arr).items().len(),
                stack_buffer@ == proof_buffer_args(db, t.args, i as nat, buf0),
                arr.items().len() == b + sum_sizes(t.args, i as nat),
                arr.items().subrange(0, b as int) == old(arr).items(),
                arr.steps() == old(arr).steps() + proof_steps_args(db, t.args, i as nat, b, buf0, arr.items()),
                children_hyps@.len() == i,
                forall|j: int| #![trigger children_hyps@[j]] 0 <= j < i ==> children_hyps@[j] == arr.items()[b + sum_sizes(t.args, (j + 1) as nat) - 1],
        {
            let child = self.formula.tree.child(node_id, i);
            let ghost items1 = arr.items();
            let ghost steps1 = arr.steps();
            let ghost buf1 = stack_buffer@;
            proof {
                lemma_provable_args_prefix(db, t.args, (i + 1) as nat, n as nat, buf0);
                assert(provable(db, t.args[i as int], buf1));
            }
            let h = self.sub_build_syntax_proof(child, stack_buffer, arr);
            children_hyps.push(h);
            proof {
                let items2 = arr.items();
                assert forall|j: int| 0 <= j < items1.len() implies #[trigger] items1[j] == items2[j] by {
                    assert(items2.subrange(0, items1.len() as int)[j] == items2[j]);
                }
                lemma_proof_steps_args_prefix(db, t.args, i as nat, b, buf0, items1, items2);
                assert(arr.steps() =~= old(arr).steps() + proof_steps_args(db, t.args, (i + 1) as nat, b, buf0, items2));
                assert(arr.items().subrange(0, b as int) =~= old(arr).items()) by {
                    assert forall|j: int| 0 <= j < b implies arr.items().subrange(0, b as int)[j] == old(arr).items()[j] by {
                        assert(items1.subrange(0, b as int)[j] == items1[j]);
                        assert(items1[j] == items2[j]);
                    }
                }
                assert forall|j: int| #![trigger children_hyps@[j]] 0 <= j < i + 1 implies children_hyps@[j] == items2[b + sum_sizes(t.args, (j + 1) as nat) - 1] by {
                    lemma_sum_sizes_step(t.args, j as nat);
                    if j < i {
                        lemma_sum_sizes_mono(t.args, (j + 1) as nat, i as nat);
                        assert(items1[b + sum_sizes(t.args, (j + 1) as nat) - 1] == items2[b + sum_sizes(t.args, (j + 1) as nat) - 1]);
                    }
                }
            }
        }
        let mut hyps: Vec<B::Item> = Vec::new();
        let nh = st.hypotheses.len();
        for j in 0..nh
            invariant
                nh == st.hypotheses@.len(),
                st == db.statement(label).unwrap(),
                t.label == label,
                provable(db, t, buf0),
                children_hyps@.len() == n,
                n == t.args.len(),
                hyps@ == floating_items(st.hypotheses@.take(j as int), children_hyps@),
        {
            assert(st.hypotheses@.take(j + 1).drop_last() =~= st.hypotheses@.take(j as int));
            match st.hypotheses[j] {
                Hyp::Floating(index) => {
                    assert(st.hypotheses@[j as int] == Hyp::Floating(index));
                    assert(index < t.args.len());
                    hyps.push(children_hyps[index]);
                },
                Hyp::Essential => {},
            }
            assert(hyps@ =~= floating_items(st.hypotheses@.take(j + 1), children_hyps@));
        }
        assert(st.hypotheses@.take(nh as int) =~= st.hypotheses@);
        let ghost bufn = stack_buffer@;
        let sub = self.formula.sub_formula(node_id);
        let range = sub.as_ref(self.db).append_to_stack_buffer(stack_buffer);
        let ghost items_n = arr.items();
        let r = arr.build(address, hyps, stack_buffer.as_slice(), range);
        proof {
            let items_f = arr.items();
            assert forall|j: int| 0 <= j < items_n.len() implies #[trigger] items_n[j] == items_f[j] by {}
            lemma_proof_steps_args_prefix(db, t.args, n as nat, b, buf0, items_n, items_f);
            assert forall|k: int| 0 <= k < n implies #[trigger] children_hyps@[k] == child_items(t, b, items_f)[k] by {
                lemma_sum_sizes_mono(t.args, (k + 1) as nat, n as nat);
                lemma_sum_sizes_step(t.args, k as nat);
                assert(children_hyps@[k] == items_n[b + sum_sizes(t.args, (k + 1) as nat) - 1]);
            }
            assert(children_hyps@ =~= child_items(t, b, items_f));
            assert(arr.steps() =~= old(arr).steps() + proof_steps(db, t, b, buf0, items_f));
            assert(arr.items().subrange(0, b as int) =~= old(arr).items()) by {
                assert forall|j: int| 0 <= j < b implies arr.items().subrange(0, b as int)[j] == old(arr).items()[j] by {
                    assert(items_n.subrange(0, b as int)[j] == items_n[j]);
                }
            }
        }
        r
    }

    /// The string of this formula: the name of its typecode, then the name of
    /// each symbol, each after a space.
    pub fn display_bytes(&self) -> (r: Vec<u8>)
        requires
            self.spec_db().name(self.spec_formula().spec_typecode()) is Some,
            flattens(self.spec_db(), self.spec_formula()@),
            all_named(self.spec_db(), self.symbols()),
        ensures
            r@ == self.spec_db().name(self.spec_formula().spec_typecode()).unwrap() + spaced_names(
                self.spec_db(),
                self.symbols(),
            ),
    {
        let ghost db = self.spec_db();
        let ghost syms = self.symbols();
        let mut out: Vec<u8> = Vec::new();
        out.extend_from_slice(self.db.atom_name(self.formula.typecode));
        let ghost head = out@;
        assert(head =~= db.name(self.spec_formula().spec_typecode()).unwrap());
        let mut it = self.iter();
        loop
            invariant
                syms == self.symbols(),
                db == self.spec_db(),
                it.wf(),
                all_named(db, syms),
                it@ == syms.skip(syms.len() - it@.len()),
                it@.len() <= syms.len(),
                head + spaced_names(db, syms) == out@ + spaced_names(db, it@),
            ensures
                it@.len() == 0,
            decreases it@.len(),
        {
            let ghost rest = it@;
            let ghost prev = out@;
            let symbol = match it.next() {
                Some(symbol) => symbol,
                None => {
                    break;
                },
            };
            assert(rest.drop_first() =~= syms.skip(syms.len() - it@.len()));
            assert(db.name(symbol) is Some) by {
                assert(rest[0] == syms[syms.len() - rest.len()]);
            }
            out.push(32u8);
            out.extend_from_slice(self.db.atom_name(symbol));
            assert(out@ =~= prev + seq![32u8] + db.name(symbol).unwrap());
            assert(head + spaced_names(db, syms) =~= out@ + spaced_names(db, it@));
        }
        assert(out@ + spaced_names(db, it@) =~= out@);
        out
    }

    /// The debug rendering of this formula: the name of the label of its root,
    /// followed, when the root has children, by their renderings between
    /// parentheses, separated by `", "`.
    pub fn debug_bytes(&self) -> (r: Vec<u8>)
        requires
            labels_named(self.spec_db(), self.spec_formula()@),
        ensures
            r@ == debug_term(self.spec_db(), self.spec_formula()@),
    {
        proof {
            use_type_invariant(self.formula);
        }
        let mut out: Vec<u8> = Vec::new();
        self.formula.debug_into(self.db, self.formula.root, &mut out);
        assert(out@ =~= debug_term(self.spec_db(), self.spec_formula()@));
        out
    }
}

/// A step of the walk through a formula: a node, the index of the next token
/// of its statement's math string, and the index of its next child.
#[derive(Clone, Copy, Debug)]
struct Frame {
    node: NodeId,
    token: usize,
    child: usize,
}

/// An iterator going through each symbol in a formula.
pub struct Flatten<'a> {
    formula: &'a Formula,
    db: &'a Database,
    stack: Vec<Frame>,
}

/// The symbols still to come from the walk `frames`, the top frame last.
spec fn rest_of(db: Database, f: Formula, frames: Seq<Frame>) -> Seq<Symbol>
    decreases frames.len(),
{
    if frames.len() == 0 {
        Seq::empty()
    } else {
        let fr = frames.last();
        flat_from(db, f.term_of(fr.node as nat), fr.token as int, fr.child as int) + rest_of(
            db,
            f,
            frames.drop_last(),
        )
    }
}

/// The number of steps left in writing `t` out from token `k`, with `c` the
/// next subterm: one per token, one per subterm entered, one to leave `t`.
spec fn steps_from(db: Database, t: Term, k: int, c: int) -> nat
    decreases t, db.math(t.label).len() - k,
{
    let math = db.math(t.label);
    if k < 0 || k >= math.len() {
        1
    } else {
        let tok = math[k];
        if tok.stype == SymbolType::Constant || t.args.len() == 0 {
            1 + steps_from(db, t, k + 1, c)
        } else if 0 <= c < t.args.len() {
            1 + steps_from(db, t.args[c], 1, 0) + steps_from(db, t, k + 1, c + 1)
        } else {
            1
        }
    }
}

/// The number of steps left in the walk `frames`.
spec fn steps_of(db: Database, f: Formula, frames: Seq<Frame>) -> nat
    decreases frames.len(),
{
    if frames.len() == 0 {
        0
    } else {
        let fr = frames.last();
        steps_from(db, f.term_of(fr.node as nat), fr.token as int, fr.child as int) + steps_of(
            db,
            f,
            frames.drop_last(),
        )
    }
}

impl<'a> View for Flatten<'a> {
    type V = Seq<Symbol>;

    /// The symbols not yet returned.
    closed spec fn view(&self) -> Seq<Symbol> {
        rest_of(*self.db, *self.formula, self.stack@)
    }
}

impl<'a> Flatten<'a> {
    /// Every frame is at a node of the formula, and what is left of it can be
    /// written out.
    pub closed spec fn wf(&self) -> bool {
        forall|i: int|
            #![trigger self.stack@[i]]
            0 <= i < self.stack@.len() ==> self.stack@[i].node < self.formula.tree.len()
                && flattens_from(
                *self.db,
                self.formula.term_of(self.stack@[i].node as nat),
                self.stack@[i].token as int,
                self.stack@[i].child as int,
            )
    }

    /// Starts writing out the subformula at `node_id`, after the symbols that
    /// remain: from the token that follows the typecode.
    fn step_into(&mut self, node_id: NodeId)
        requires
            old(self).wf(),
            node_id < old(self).formula.tree.len(),
            flattens_from(*old(self).db, old(self).formula.term_of(node_id as nat), 1, 0),
        ensures
            final(self).wf(),
            final(self).formula == old(self).formula,
            final(self).db == old(self).db,
            final(self).stack@ == old(self).stack@.push(Frame { node: node_id, token: 1, child: 0 }),
    {
        self.stack.push(Frame { node: node_id, token: 1, child: 0 });
        assert(self.stack@.drop_last() =~= old(self).stack@);
    }

    /// Returns the next symbol, if any.
    pub fn next(&mut self) -> (r: Option<Symbol>)
        requires
            old(self).wf(),
        ensures
            final(self).wf(),
            old(self)@.len() == 0 ==> r is None && final(self)@ == old(self)@,
            old(self)@.len() > 0 ==> r == Some(old(self)@[0]) && final(self)@ == old(self)@.drop_first(),
    {
        proof {
            use_type_invariant(self.formula);
        }
        loop
            invariant
                self.wf(),
                self.formula == old(self).formula,
                self.db == old(self).db,
                self.formula.tree.wf(),
                self.formula.tree.small_arity(),
                self@ == old(self)@,
            decreases steps_of(*self.db, *self.formula, self.stack@),
        {
            let len = self.stack.len();
            if len == 0 {
                return None;
            }
            let ghost frames = self.stack@;
            let ghost below = frames.drop_last();
            let frame = self.stack[len - 1];
            assert(frame == frames[len - 1]);
            let ghost t = self.formula.term_of(frame.node as nat);
            proof {
                lemma_term_at_args(&*self.formula.tree, self.formula.variables, frame.node as nat);
            }
            let label = self.formula.tree.item(frame.node);
            let st = self.db.statement_of(label).unwrap();
            if frame.token < st.math.len() {
                let tok = st.math[frame.token];
                let has_children = self.formula.tree.has_children(frame.node);
                if tok.stype == SymbolType::Constant || !has_children {
                    let next = Frame { node: frame.node, token: frame.token + 1, child: frame.child };
                    self.stack.set(len - 1, next);
                    proof {
                        assert(self.stack@.drop_last() =~= below);
                        assert(self.stack@.last() == next);
                        assert(old(self)@ == seq![tok.symbol] + self@);
                        assert(self@ =~= old(self)@.drop_first());
                    }
                    return Some(tok.symbol);
                } else {
                    let child = self.formula.tree.child(frame.node, frame.child);
                    let next = Frame { node: frame.node, token: frame.token + 1, child: frame.child + 1 };
                    self.stack.set(len - 1, next);
                    assert(self.stack@.drop_last() =~= below);
                    assert(t.args[frame.child as int] == self.formula.term_of(child as nat));
                    assert(self.db.math(label) == st.math@);
                    assert(flat_from(*self.db, t, frame.token as int, frame.child as int) == flat_from(
                        *self.db,
                        t.args[frame.child as int],
                        1,
                        0,
                    ) + flat_from(*self.db, t, frame.token + 1, frame.child + 1));
                    self.step_into(child);
                    proof {
                        let s1 = self.stack@;
                        assert(s1.drop_last().drop_last() =~= below);
                        assert(s1.drop_last().last() == next);
                        assert(rest_of(*self.db, *self.formula, s1.drop_last()) == flat_from(
                            *self.db,
                            t,
                            frame.token + 1,
                            frame.child + 1,
                        ) + rest_of(*self.db, *self.formula, below));
                        assert(self@ =~= old(self)@);
                        assert(steps_of(*self.db, *self.formula, s1.drop_last()) == steps_from(
                            *self.db,
                            t,
                            frame.token + 1,
                            frame.child + 1,
                        ) + steps_of(*self.db, *self.formula, below));
                        assert(steps_from(*self.db, t, frame.token as int, frame.child as int) == 1
                            + steps_from(*self.db, t.args[frame.child as int], 1, 0) + steps_from(
                            *self.db,
                            t,
                            frame.token + 1,
                            frame.child + 1,
                        ));
                    }
                }
            } else {
                self.stack.pop();
                assert(self.stack@ =~= below);
                assert(self.db.math(label) == st.math@);
            }
        }
    }
}

/// A utility to build a formula, bottom-up: a stack of subformulas, which
/// each `reduce` combines into a new node.
#[derive(Debug)]
pub struct FormulaBuilder {
    stack: Vec<NodeId>,
    variables: Bitset,
    tree: Tree,
}

impl FormulaBuilder {
    /// The tree is ordered, no node has more than 255 children, every entry
    /// of the stack is a node of the tree, and only nodes are flagged.
    pub closed spec fn wf(&self) -> bool {
        &&& self.tree.wf()
        &&& self.tree.small_arity()
        &&& forall|i: int| 0 <= i < self.stack@.len() ==> #[trigger] self.stack@[i] < self.tree.len()
        &&& forall|j: nat| j >= self.tree.len() ==> !#[trigger] self.variables.has(j)
    }

    /// The subformulas on the stack, bottom first.
    pub closed spec fn terms(&self) -> Seq<Term> {
        Seq::new(
            self.stack@.len(),
            |i: int| term_at(self.tree, self.variables, self.stack@[i] as nat),
        )
    }

    /// A builder with an empty stack.
    pub fn new() -> (r: FormulaBuilder)
        ensures
            r.wf(),
            r.terms() == Seq::<Term>::empty(),
    {
        let r = FormulaBuilder { stack: Vec::new(), variables: Bitset::new(), tree: Tree::new() };
        assert(r.terms() =~= Seq::<Term>::empty());
        r
    }

    /// Every REDUCE pops `var_count` subformula items on the stack, after
    /// leaving the topmost `offset` ones aside, and pushes one single new item
    /// in their place, with the popped subformulas as children.
    pub fn reduce(&mut self, label: Label, var_count: u8, offset: u8, is_variable: bool)
        requires
            old(self).wf(),
            old(self).terms().len() >= var_count + offset,
        ensures
            final(self).wf(),
            ({
                let s = old(self).terms();
                let start = s.len() - var_count - offset;
                let end = s.len() - offset;
                final(self).terms() == s.subrange(0, start) + seq![
                    Term { label, is_var: is_variable, args: s.subrange(start, end) },
                ] + s.subrange(end, s.len() as int)
            }),
    {
        let ghost old_tree = self.tree;
        let ghost old_vars = self.variables;
        let ghost s = old(self).terms();
        let len = self.stack.len();
        let reduce_start = len - (var_count as usize + offset as usize);
        let reduce_end = len - offset as usize;
        let mut tail = self.stack.split_off(reduce_end);
        let children = self.stack.split_off(reduce_start);
        let new_node_id = self.tree.add_node(label, children.as_slice());
        if is_variable {
            self.variables.set_bit(new_node_id);
        }
        self.stack.push(new_node_id);
        self.stack.append(&mut tail);
        proof {
            assert forall|id: nat| id < old_tree.len() implies term_at(self.tree, self.variables, id)
                == term_at(old_tree, old_vars, id) by {
                lemma_term_at_frame(&self.tree, self.variables, &old_tree, old_vars, id);
            }
            lemma_term_at_args(&self.tree, self.variables, new_node_id as nat);
            let t = term_at(self.tree, self.variables, new_node_id as nat);
            assert(t.args =~= s.subrange(reduce_start as int, reduce_end as int));
            assert(self.terms() =~= s.subrange(0, reduce_start as int) + seq![t] + s.subrange(
                reduce_end as int,
                s.len() as int,
            ));
        }
    }

    /// The formula whose root is the only item on the stack.
    pub fn build(self, typecode: TypeCode) -> (r: Formula)
        requires
            self.wf(),
            self.terms().len() == 1,
        ensures
            r@ == self.terms()[0],
            r.spec_typecode() == typecode,
    {
        let root = self.stack[0];
        Formula { typecode, tree: Arc::new(self.tree), root, variables: self.variables }
    }
}

} // verus!
