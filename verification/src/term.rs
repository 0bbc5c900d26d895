//! The mathematical model of a formula: a finite tree of labels, each node
//! flagged when it stands for a variable.

use vstd::prelude::*;
use crate::Label;

verus! {

/// A formula as a term: the label of its root, whether the root is a
/// variable, and the ordered subterms.
pub struct Term {
    pub label: Label,
    pub is_var: bool,
    pub args: Seq<Term>,
}

/// The term with the given label and no subterm.
pub open spec fn leaf(label: Label, is_var: bool) -> Term {
    Term { label, is_var, args: Seq::empty() }
}

/// Equality of formulas: the labels are equal, the roots have as many
/// subterms, and the subterms at the same positions are equal in turn.
/// Variable flags are not compared.
pub open spec fn sub_equal(a: Term, b: Term) -> bool
    decreases a,
{
    &&& a.label == b.label
    &&& a.args.len() == b.args.len()
    &&& forall|i: int| #![trigger a.args[i]] 0 <= i < a.args.len() ==> sub_equal(a.args[i], b.args[i])
}

/// Replaces, in `t`, every variable node whose label `s` maps by the term it is
/// mapped to. Other nodes are kept with their label and flag.
pub open spec fn subst(t: Term, s: Map<Label, Term>) -> Term
    decreases t,
{
    if t.is_var && s.contains_key(t.label) {
        s[t.label]
    } else {
        Term {
            label: t.label,
            is_var: t.is_var,
            args: Seq::new(
                t.args.len(),
                |i: int|
                    if 0 <= i < t.args.len() {
                        subst(t.args[i], s)
                    } else {
                        t
                    },
            ),
        }
    }
}

/// The labels of all the variable nodes of `t`.
pub open spec fn vars(t: Term) -> Set<Label>
    decreases t,
{
    Set::new(
        |l: Label|
            (t.is_var && l == t.label) || exists|i: int|
                #![trigger t.args[i]]
                0 <= i < t.args.len() && vars(t.args[i]).contains(l),
    )
}

/// The labels of the variable nodes of `t` that lie under no other variable
/// node: those that matching `t` as a model binds.
pub open spec fn pattern_vars(t: Term) -> Set<Label>
    decreases t,
{
    if t.is_var {
        set![t.label]
    } else {
        Set::new(
            |l: Label|
                exists|i: int|
                    #![trigger t.args[i]]
                    0 <= i < t.args.len() && pattern_vars(t.args[i]).contains(l),
        )
    }
}

/// Matches the model `o` against `s`, starting from the bindings `m`.
/// A variable node of the model binds its label to the subterm of `s` at the
/// same place, or, where the label is bound already, requires that subterm to
/// be `sub_equal` to its binding. Any other node of the model requires the same
/// label as `s`, as many subterms, and the subterms, taken left to right, to
/// match in turn.
pub open spec fn unify_term(s: Term, o: Term, m: Map<Label, Term>) -> Option<Map<Label, Term>>
    decreases o, 0nat,
{
    if o.is_var {
        if m.contains_key(o.label) {
            if sub_equal(s, m[o.label]) {
                Some(m)
            } else {
                None
            }
        } else {
            Some(m.insert(o.label, s))
        }
    } else if s.label == o.label && s.args.len() == o.args.len() {
        unify_args(s.args, o.args, o.args.len(), m)
    } else {
        None
    }
}

/// The bindings after matching the first `n` subterms of `os` against those of `ss`.
pub open spec fn unify_args(ss: Seq<Term>, os: Seq<Term>, n: nat, m: Map<Label, Term>) -> Option<
    Map<Label, Term>,
>
    decreases os, n,
{
    if n == 0 {
        Some(m)
    } else if n <= os.len() {
        match unify_args(ss, os, (n - 1) as nat, m) {
            Some(m2) => unify_term(ss[n - 1], os[n - 1], m2),
            None => None,
        }
    } else {
        None
    }
}

/// The label reached from the root of `t` by following `path`, each element
/// of which is the index of the subterm to enter; `None` where an index is out
/// of range.
pub open spec fn label_at(t: Term, path: Seq<usize>) -> Option<Label>
    decreases path.len(),
{
    if path.len() == 0 {
        Some(t.label)
    } else if path[0] < t.args.len() {
        label_at(t.args[path[0] as int], path.drop_first())
    } else {
        None
    }
}

/// The number of nodes of `t`.
pub open spec fn size(t: Term) -> nat
    decreases t, 0nat,
{
    1 + sum_sizes(t.args, t.args.len())
}

/// The number of nodes of the first `n` terms of `ts`.
pub open spec fn sum_sizes(ts: Seq<Term>, n: nat) -> nat
    decreases ts, n,
{
    if n == 0 || n > ts.len() {
        0
    } else {
        sum_sizes(ts, (n - 1) as nat) + size(ts[n - 1])
    }
}

} // verus!
