//! Properties that relate matching, substitution and equality of formulas.

use vstd::prelude::*;
use crate::term::{leaf, pattern_vars, sub_equal, subst, unify_args, unify_term, vars, Term};
use crate::Label;

verus! {

/// Every label of `t` is described by `sig`, which gives each label its number
/// of subterms and whether it is a variable. Formulas parsed against one
/// grammar conform to one such description.
pub open spec fn conforms(t: Term, sig: Map<Label, (nat, bool)>) -> bool
    decreases t,
{
    &&& sig.contains_key(t.label)
    &&& sig[t.label] == (t.args.len(), t.is_var)
    &&& forall|i: int| #![trigger t.args[i]] 0 <= i < t.args.len() ==> conforms(t.args[i], sig)
}

/// Every variable node of `t` has no subterm.
pub open spec fn vars_are_leaves(t: Term) -> bool
    decreases t,
{
    &&& (t.is_var ==> t.args.len() == 0)
    &&& forall|i: int| #![trigger t.args[i]] 0 <= i < t.args.len() ==> vars_are_leaves(t.args[i])
}

/// The labels that `pattern_vars` gives for the first `n` terms of `ts`.
pub open spec fn vars_upto(ts: Seq<Term>, n: nat) -> Set<Label> {
    Set::new(|l: Label| exists|i: int| #![trigger ts[i]] 0 <= i < n && i < ts.len() && pattern_vars(ts[i]).contains(l))
}

/// Each binding of `m` is equal, as a formula, to the binding of `sigma` for
/// the same label.
pub open spec fn bindings_equal(m: Map<Label, Term>, sigma: Map<Label, Term>) -> bool {
    forall|l: Label| #[trigger] m.contains_key(l) ==> sigma.contains_key(l) && sub_equal(m[l], sigma[l])
}

/// The substitution that applies `s1`, then `s2`: each binding of `s1` with
/// `s2` substituted into it, and the bindings of `s2` for the other labels.
pub open spec fn compose(s1: Map<Label, Term>, s2: Map<Label, Term>) -> Map<Label, Term> {
    Map::new(
        |l: Label| s1.contains_key(l) || s2.contains_key(l),
        |l: Label|
            if s1.contains_key(l) {
                subst(s1[l], s2)
            } else {
                s2[l]
            },
    )
}

/// Equality of formulas is reflexive: a formula equals itself.
pub proof fn lemma_sub_equal_reflexive(t: Term)
    ensures
        sub_equal(t, t),
    decreases t,
{
    assert forall|i: int| #![trigger t.args[i]] 0 <= i < t.args.len() implies sub_equal(
        t.args[i],
        t.args[i],
    ) by {
        lemma_sub_equal_reflexive(t.args[i]);
    }
}

/// Equality of formulas is symmetric.
pub proof fn lemma_sub_equal_symmetric(a: Term, b: Term)
    requires
        sub_equal(a, b),
    ensures
        sub_equal(b, a),
    decreases a,
{
    assert forall|i: int| #![trigger b.args[i]] 0 <= i < b.args.len() implies sub_equal(
        b.args[i],
        a.args[i],
    ) by {
        assert(sub_equal(a.args[i], b.args[i]));
        lemma_sub_equal_symmetric(a.args[i], b.args[i]);
    }
}

/// Equality of formulas is transitive.
pub proof fn lemma_sub_equal_transitive(a: Term, b: Term, c: Term)
    requires
        sub_equal(a, b),
        sub_equal(b, c),
    ensures
        sub_equal(a, c),
    decreases a,
{
    assert forall|i: int| #![trigger a.args[i]] 0 <= i < a.args.len() implies sub_equal(
        a.args[i],
        c.args[i],
    ) by {
        assert(sub_equal(a.args[i], b.args[i]));
        assert(sub_equal(b.args[i], c.args[i]));
        lemma_sub_equal_transitive(a.args[i], b.args[i], c.args[i]);
    }
}

/// Between formulas that conform to one description, equality of formulas is
/// equality of terms, variable flags included.
pub proof fn lemma_sub_equal_conforming(a: Term, b: Term, sig: Map<Label, (nat, bool)>)
    requires
        conforms(a, sig),
        conforms(b, sig),
    ensures
        sub_equal(a, b) <==> a == b,
    decreases a,
{
    if a == b {
        lemma_sub_equal_reflexive(a);
    }
    if sub_equal(a, b) {
        assert forall|i: int| #![trigger a.args[i]] 0 <= i < a.args.len() implies a.args[i] == b.args[i] by {
            assert(conforms(a.args[i], sig));
            assert(conforms(b.args[i], sig));
            lemma_sub_equal_conforming(a.args[i], b.args[i], sig);
        }
        assert(a.args =~= b.args);
    }
}

/// Substitution leaves a term alone when none of its variables is bound;
/// in particular, substituting nothing gives back the term.
pub proof fn lemma_subst_unbound(t: Term, s: Map<Label, Term>)
    requires
        vars(t).disjoint(s.dom()),
    ensures
        subst(t, s) == t,
    decreases t,
{
    if t.is_var {
        assert(vars(t).contains(t.label));
    }
    assert forall|i: int| #![trigger t.args[i]] 0 <= i < t.args.len() implies subst(t.args[i], s)
        == t.args[i] by {
        assert forall|l: Label| vars(t.args[i]).contains(l) implies !s.dom().contains(l) by {
            assert(vars(t).contains(l));
        }
        lemma_subst_unbound(t.args[i], s);
    }
    assert(subst(t, s).args =~= t.args);
}

/// Binding more variables does not change a substitution that already binds
/// every variable the model binds.
pub proof fn lemma_subst_extend(t: Term, s1: Map<Label, Term>, s2: Map<Label, Term>)
    requires
        pattern_vars(t).subset_of(s1.dom()),
        s1.submap_of(s2),
    ensures
        subst(t, s1) == subst(t, s2),
    decreases t,
{
    if t.is_var {
        assert(pattern_vars(t).contains(t.label));
    } else {
        assert forall|i: int| #![trigger t.args[i]] 0 <= i < t.args.len() implies subst(
            t.args[i],
            s1,
        ) == subst(t.args[i], s2) by {
            assert forall|l: Label| pattern_vars(t.args[i]).contains(l) implies s1.dom().contains(l) by {
                assert(pattern_vars(t).contains(l));
            }
            lemma_subst_extend(t.args[i], s1, s2);
        }
        assert(subst(t, s1).args =~= subst(t, s2).args);
    }
}

/// Substituting `s1`, then `s2`, is substituting their composition.
pub proof fn lemma_subst_compose(t: Term, s1: Map<Label, Term>, s2: Map<Label, Term>)
    ensures
        subst(subst(t, s1), s2) == subst(t, compose(s1, s2)),
    decreases t,
{
    let c = compose(s1, s2);
    if t.is_var && s1.contains_key(t.label) {
    } else if t.is_var && s2.contains_key(t.label) {
    } else {
        let u = subst(t, s1);
        assert forall|i: int| #![trigger t.args[i]] 0 <= i < t.args.len() implies subst(
            u.args[i],
            s2,
        ) == subst(t.args[i], c) by {
            lemma_subst_compose(t.args[i], s1, s2);
        }
        assert(subst(u, s2).args =~= subst(t, c).args);
    }
}

/// Matching, when substituting `sigma` into the model `o` gives exactly `s`
/// and `sigma` binds every variable the model binds: it succeeds and finds
/// exactly `sigma` on those variables.
pub proof fn lemma_unify_complete(s: Term, o: Term, sigma: Map<Label, Term>)
    requires
        subst(o, sigma) == s,
        pattern_vars(o).subset_of(sigma.dom()),
    ensures
        unify_term(s, o, Map::empty()) == Some(sigma.restrict(pattern_vars(o))),
{
    lemma_complete_term(s, o, sigma, Map::empty());
    assert(Map::<Label, Term>::empty().union_prefer_right(sigma.restrict(pattern_vars(o)))
        =~= sigma.restrict(pattern_vars(o)));
}

proof fn lemma_complete_term(s: Term, o: Term, sigma: Map<Label, Term>, m: Map<Label, Term>)
    requires
        subst(o, sigma) == s,
        pattern_vars(o).subset_of(sigma.dom()),
        m.submap_of(sigma),
    ensures
        unify_term(s, o, m) == Some(m.union_prefer_right(sigma.restrict(pattern_vars(o)))),
    decreases o, 0nat,
{
    let r = m.union_prefer_right(sigma.restrict(pattern_vars(o)));
    if o.is_var {
        let l = o.label;
        assert(pattern_vars(o).contains(l));
        assert(pattern_vars(o) =~= set![l]);
        if m.contains_key(l) {
            lemma_sub_equal_reflexive(s);
            assert(r =~= m);
        } else {
            assert(r =~= m.insert(l, s));
        }
    } else {
        assert(s.args.len() == o.args.len());
        assert forall|i: int| 0 <= i < o.args.len() implies subst(#[trigger] o.args[i], sigma)
            == s.args[i] && pattern_vars(o.args[i]).subset_of(sigma.dom()) by {
            assert forall|l: Label| pattern_vars(o.args[i]).contains(l) implies sigma.dom().contains(
                l,
            ) by {
                assert(pattern_vars(o).contains(l));
            }
        }
        lemma_complete_args(s.args, o.args, o.args.len(), sigma, m);
        assert(vars_upto(o.args, o.args.len()) =~= pattern_vars(o));
    }
}

proof fn lemma_complete_args(
    ss: Seq<Term>,
    os: Seq<Term>,
    n: nat,
    sigma: Map<Label, Term>,
    m: Map<Label, Term>,
)
    requires
        n <= os.len(),
        ss.len() == os.len(),
        forall|i: int|
            0 <= i < os.len() ==> subst(#[trigger] os[i], sigma) == ss[i] && pattern_vars(
                os[i],
            ).subset_of(sigma.dom()),
        m.submap_of(sigma),
    ensures
        unify_args(ss, os, n, m) == Some(m.union_prefer_right(sigma.restrict(vars_upto(os, n)))),
    decreases os, n,
{
    if n == 0 {
        assert(m.union_prefer_right(sigma.restrict(vars_upto(os, n))) =~= m);
    } else {
        let k = (n - 1) as nat;
        lemma_complete_args(ss, os, k, sigma, m);
        let m2 = m.union_prefer_right(sigma.restrict(vars_upto(os, k)));
        assert(m2.submap_of(sigma));
        assert(subst(os[k as int], sigma) == ss[k as int]);
        lemma_complete_term(ss[k as int], os[k as int], sigma, m2);
        assert(vars_upto(os, n) =~= vars_upto(os, k).union(pattern_vars(os[k as int])));
        assert(m2.union_prefer_right(sigma.restrict(pattern_vars(os[k as int])))
            =~= m.union_prefer_right(sigma.restrict(vars_upto(os, n))));
    }
}

/// Matching succeeds whenever some substitution that binds every variable the
/// model binds makes the model equal, as a formula, to `s`; each variable is
/// then bound to a formula equal to its binding in that substitution.
pub proof fn lemma_unify_complete_up_to_equality(s: Term, o: Term, sigma: Map<Label, Term>)
    requires
        sub_equal(subst(o, sigma), s),
        pattern_vars(o).subset_of(sigma.dom()),
    ensures
        unify_term(s, o, Map::empty()) is Some,
        unify_term(s, o, Map::empty()).unwrap().dom() == pattern_vars(o),
        bindings_equal(unify_term(s, o, Map::empty()).unwrap(), sigma),
{
    lemma_complete_eq_term(s, o, sigma, Map::empty());
    assert(Map::<Label, Term>::empty().dom().union(pattern_vars(o)) =~= pattern_vars(o));
}

proof fn lemma_complete_eq_term(s: Term, o: Term, sigma: Map<Label, Term>, m: Map<Label, Term>)
    requires
        sub_equal(subst(o, sigma), s),
        pattern_vars(o).subset_of(sigma.dom()),
        bindings_equal(m, sigma),
    ensures
        unify_term(s, o, m) is Some,
        m.submap_of(unify_term(s, o, m).unwrap()),
        unify_term(s, o, m).unwrap().dom() == m.dom().union(pattern_vars(o)),
        bindings_equal(unify_term(s, o, m).unwrap(), sigma),
    decreases o, 0nat,
{
    if o.is_var {
        let l = o.label;
        assert(pattern_vars(o).contains(l));
        assert(pattern_vars(o) =~= set![l]);
        lemma_sub_equal_symmetric(sigma[l], s);
        if m.contains_key(l) {
            lemma_sub_equal_symmetric(m[l], sigma[l]);
            lemma_sub_equal_transitive(s, sigma[l], m[l]);
            assert(m.dom().union(pattern_vars(o)) =~= m.dom());
        } else {
            assert(m.insert(l, s).dom() =~= m.dom().union(pattern_vars(o)));
        }
    } else {
        let u = subst(o, sigma);
        assert(s.args.len() == o.args.len());
        assert forall|i: int| 0 <= i < o.args.len() implies sub_equal(subst(#[trigger] o.args[i], sigma),
            s.args[i]) && pattern_vars(o.args[i]).subset_of(sigma.dom()) by {
            assert(sub_equal(u.args[i], s.args[i]));
            assert forall|l: Label| pattern_vars(o.args[i]).contains(l) implies sigma.dom().contains(
                l,
            ) by {
                assert(pattern_vars(o).contains(l));
            }
        }
        lemma_complete_eq_args(s.args, o.args, o.args.len(), sigma, m);
        assert(vars_upto(o.args, o.args.len()) =~= pattern_vars(o));
    }
}

proof fn lemma_complete_eq_args(
    ss: Seq<Term>,
    os: Seq<Term>,
    n: nat,
    sigma: Map<Label, Term>,
    m: Map<Label, Term>,
)
    requires
        n <= os.len(),
        ss.len() == os.len(),
        forall|i: int|
            0 <= i < os.len() ==> sub_equal(subst(#[trigger] os[i], sigma), ss[i]) && pattern_vars(
                os[i],
            ).subset_of(sigma.dom()),
        bindings_equal(m, sigma),
    ensures
        unify_args(ss, os, n, m) is Some,
        m.submap_of(unify_args(ss, os, n, m).unwrap()),
        unify_args(ss, os, n, m).unwrap().dom() == m.dom().union(vars_upto(os, n)),
        bindings_equal(unify_args(ss, os, n, m).unwrap(), sigma),
    decreases os, n,
{
    if n == 0 {
        assert(m.dom().union(vars_upto(os, n)) =~= m.dom());
    } else {
        let k = (n - 1) as nat;
        lemma_complete_eq_args(ss, os, k, sigma, m);
        let m1 = unify_args(ss, os, k, m).unwrap();
        assert(sub_equal(subst(os[k as int], sigma), ss[k as int]));
        lemma_complete_eq_term(ss[k as int], os[k as int], sigma, m1);
        assert(vars_upto(os, n) =~= vars_upto(os, k).union(pattern_vars(os[k as int])));
        assert(unify_args(ss, os, n, m).unwrap().dom() =~= m.dom().union(vars_upto(os, n)));
    }
}

/// Matching is sound: the bindings it finds are for exactly the variables the
/// model binds, and substituting them into the model gives a formula equal to
/// the matched one.
pub proof fn lemma_unify_sound(s: Term, o: Term)
    requires
        unify_term(s, o, Map::empty()) is Some,
    ensures
        unify_term(s, o, Map::empty()).unwrap().dom() == pattern_vars(o),
        sub_equal(subst(o, unify_term(s, o, Map::empty()).unwrap()), s),
{
    lemma_sound_term(s, o, Map::empty());
    assert(Map::<Label, Term>::empty().dom().union(pattern_vars(o)) =~= pattern_vars(o));
}

/// Between formulas that conform to one description, substituting the bindings
/// that matching finds into the model gives back exactly the matched formula.
pub proof fn lemma_unify_sound_conforming(s: Term, o: Term, sig: Map<Label, (nat, bool)>)
    requires
        conforms(s, sig),
        conforms(o, sig),
        unify_term(s, o, Map::empty()) is Some,
    ensures
        subst(o, unify_term(s, o, Map::empty()).unwrap()) == s,
{
    lemma_sound_term(s, o, Map::empty());
    lemma_sound_conforming_term(s, o, Map::empty(), sig);
    let m = unify_term(s, o, Map::empty()).unwrap();
    lemma_subst_conforms(o, m, sig);
    lemma_sub_equal_conforming(subst(o, m), s, sig);
}

/// Every binding of `m` conforms to `sig`.
pub open spec fn bindings_conform(m: Map<Label, Term>, sig: Map<Label, (nat, bool)>) -> bool {
    forall|l: Label| #[trigger] m.contains_key(l) ==> conforms(m[l], sig)
}

proof fn lemma_sound_conforming_term(s: Term, o: Term, m: Map<Label, Term>, sig: Map<Label, (nat, bool)>)
    requires
        conforms(s, sig),
        bindings_conform(m, sig),
        unify_term(s, o, m) is Some,
    ensures
        bindings_conform(unify_term(s, o, m).unwrap(), sig),
    decreases o, 0nat,
{
    if !o.is_var && s.label == o.label && s.args.len() == o.args.len() {
        lemma_sound_conforming_args(s.args, o.args, o.args.len(), m, sig);
    }
}

proof fn lemma_sound_conforming_args(
    ss: Seq<Term>,
    os: Seq<Term>,
    n: nat,
    m: Map<Label, Term>,
    sig: Map<Label, (nat, bool)>,
)
    requires
        n <= ss.len(),
        forall|i: int| 0 <= i < ss.len() ==> conforms(#[trigger] ss[i], sig),
        bindings_conform(m, sig),
        unify_args(ss, os, n, m) is Some,
    ensures
        bindings_conform(unify_args(ss, os, n, m).unwrap(), sig),
    decreases os, n,
{
    if n > 0 {
        let k = (n - 1) as nat;
        lemma_sound_conforming_args(ss, os, k, m, sig);
        lemma_sound_conforming_term(ss[k as int], os[k as int], unify_args(ss, os, k, m).unwrap(), sig);
    }
}

/// Substituting conforming bindings for the variables of a conforming model
/// that the bindings cover gives a conforming formula.
proof fn lemma_subst_conforms(o: Term, m: Map<Label, Term>, sig: Map<Label, (nat, bool)>)
    requires
        conforms(o, sig),
        bindings_conform(m, sig),
        pattern_vars(o).subset_of(m.dom()),
    ensures
        conforms(subst(o, m), sig),
    decreases o,
{
    if o.is_var {
        assert(pattern_vars(o).contains(o.label));
    } else {
        assert forall|i: int| #![trigger o.args[i]] 0 <= i < o.args.len() implies conforms(
            subst(o.args[i], m),
            sig,
        ) by {
            assert forall|l: Label| pattern_vars(o.args[i]).contains(l) implies m.dom().contains(l) by {
                assert(pattern_vars(o).contains(l));
            }
            lemma_subst_conforms(o.args[i], m, sig);
        }
        let u = subst(o, m);
        assert forall|i: int| #![trigger u.args[i]] 0 <= i < u.args.len() implies conforms(u.args[i], sig) by {
            assert(u.args[i] == subst(o.args[i], m));
        }
    }
}

proof fn lemma_sound_term(s: Term, o: Term, m: Map<Label, Term>)
    requires
        unify_term(s, o, m) is Some,
    ensures
        ({
            let m2 = unify_term(s, o, m).unwrap();
            &&& m.submap_of(m2)
            &&& m2.dom() == m.dom().union(pattern_vars(o))
            &&& sub_equal(subst(o, m2), s)
        }),
    decreases o, 0nat,
{
    let m2 = unify_term(s, o, m).unwrap();
    if o.is_var {
        let l = o.label;
        assert(pattern_vars(o) =~= set![l]);
        if m.contains_key(l) {
            lemma_sub_equal_symmetric(s, m[l]);
        } else {
            lemma_sub_equal_reflexive(s);
        }
        assert(m2.dom() =~= m.dom().union(pattern_vars(o)));
    } else {
        assert(s.label == o.label);
        assert(s.args.len() == o.args.len());
        lemma_sound_args(s.args, o.args, o.args.len(), m);
        assert(vars_upto(o.args, o.args.len()) =~= pattern_vars(o));
        let u = subst(o, m2);
        assert forall|i: int| #![trigger u.args[i]] 0 <= i < u.args.len() implies sub_equal(u.args[i], s.args[i]) by {
            assert(u.args[i] == subst(o.args[i], m2));
        }
    }
}

proof fn lemma_sound_args(ss: Seq<Term>, os: Seq<Term>, n: nat, m: Map<Label, Term>)
    requires
        n <= ss.len(),
        n <= os.len(),
        unify_args(ss, os, n, m) is Some,
    ensures
        ({
            let m2 = unify_args(ss, os, n, m).unwrap();
            &&& m.submap_of(m2)
            &&& m2.dom() == m.dom().union(vars_upto(os, n))
            &&& forall|i: int| 0 <= i < n ==> sub_equal(subst(#[trigger] os[i], m2), ss[i])
        }),
    decreases os, n,
{
    if n == 0 {
        assert(m.dom().union(vars_upto(os, n)) =~= m.dom());
    } else {
        let k = (n - 1) as nat;
        lemma_sound_args(ss, os, k, m);
        let m1 = unify_args(ss, os, k, m).unwrap();
        lemma_sound_term(ss[k as int], os[k as int], m1);
        let m2 = unify_args(ss, os, n, m).unwrap();
        assert(m2 == unify_term(ss[k as int], os[k as int], m1).unwrap());
        assert(vars_upto(os, n) =~= vars_upto(os, k).union(pattern_vars(os[k as int])));
        assert(m2.dom() =~= m.dom().union(vars_upto(os, n)));
        assert forall|i: int| 0 <= i < n implies sub_equal(subst(#[trigger] os[i], m2), ss[i]) by {
            if i < k {
                assert(sub_equal(subst(os[i], m1), ss[i]));
                assert forall|l: Label| pattern_vars(os[i]).contains(l) implies m1.dom().contains(l) by {
                    assert(vars_upto(os, k).contains(l));
                }
                lemma_subst_extend(os[i], m1, m2);
            }
        }
    }
}

/// Matching fails exactly when no substitution that binds every variable the
/// model binds makes the model equal, as a formula, to `s`.
pub proof fn lemma_unify_fails_iff(s: Term, o: Term)
    ensures
        unify_term(s, o, Map::empty()) is None <==> !exists|sigma: Map<Label, Term>|
            pattern_vars(o).subset_of(sigma.dom()) && #[trigger] sub_equal(subst(o, sigma), s),
{
    if unify_term(s, o, Map::empty()) is Some {
        lemma_unify_sound(s, o);
        let m = unify_term(s, o, Map::empty()).unwrap();
        assert(pattern_vars(o).subset_of(m.dom()) && sub_equal(subst(o, m), s));
    } else {
        assert forall|sigma: Map<Label, Term>|
            pattern_vars(o).subset_of(sigma.dom()) implies !#[trigger] sub_equal(subst(o, sigma), s) by {
            if sub_equal(subst(o, sigma), s) {
                lemma_unify_complete_up_to_equality(s, o, sigma);
            }
        }
    }
}

/// The bindings of each variable of `t` to the variable node alone.
pub open spec fn identity_bindings(t: Term) -> Map<Label, Term> {
    Map::new(|l: Label| pattern_vars(t).contains(l), |l: Label| leaf(l, true))
}

/// Substituting each variable by itself gives back a term whose variable
/// nodes have no subterm.
pub proof fn lemma_subst_identity(t: Term, s: Map<Label, Term>)
    requires
        vars_are_leaves(t),
        forall|l: Label| #[trigger] pattern_vars(t).contains(l) ==> s.contains_key(l) && s[l] == leaf(l, true),
    ensures
        subst(t, s) == t,
    decreases t,
{
    if t.is_var {
        assert(pattern_vars(t).contains(t.label));
        assert(t.args =~= Seq::<Term>::empty());
    } else {
        assert forall|i: int| #![trigger t.args[i]] 0 <= i < t.args.len() implies subst(t.args[i], s) == t.args[i] by {
            assert forall|l: Label| #[trigger] pattern_vars(t.args[i]).contains(l) implies s.contains_key(l) && s[l] == leaf(l, true) by {
                assert(pattern_vars(t).contains(l));
            }
            lemma_subst_identity(t.args[i], s);
        }
        assert(subst(t, s).args =~= t.args);
    }
}

/// A formula whose variable nodes have no subterm matches itself as a model,
/// binding each of its variables to the variable alone.
pub proof fn lemma_unify_self(t: Term)
    requires
        vars_are_leaves(t),
    ensures
        unify_term(t, t, Map::empty()) == Some(identity_bindings(t)),
{
    let s = identity_bindings(t);
    lemma_subst_identity(t, s);
    lemma_unify_complete(t, t, s);
    assert(s.restrict(pattern_vars(t)) =~= s);
}

/// In a model whose variable nodes have no subterms, leaving a variable
/// unbound is binding it to the variable alone.
pub proof fn lemma_subst_unbound_leaves(t: Term, s1: Map<Label, Term>, s2: Map<Label, Term>)
    requires
        vars_are_leaves(t),
        s1.submap_of(s2),
        forall|l: Label|
            #[trigger] pattern_vars(t).contains(l) && s2.contains_key(l) && !s1.contains_key(l)
                ==> s2[l] == leaf(l, true),
    ensures
        subst(t, s2) == subst(t, s1),
    decreases t,
{
    if t.is_var {
        assert(pattern_vars(t).contains(t.label));
        if !s1.contains_key(t.label) {
            assert(subst(t, s1).args =~= Seq::<Term>::empty());
            if !s2.contains_key(t.label) {
                assert(subst(t, s2).args =~= Seq::<Term>::empty());
            }
        }
    } else {
        assert forall|i: int| #![trigger t.args[i]] 0 <= i < t.args.len() implies subst(
            t.args[i],
            s2,
        ) == subst(t.args[i], s1) by {
            assert forall|l: Label|
                #[trigger] pattern_vars(t.args[i]).contains(l) && s2.contains_key(l)
                    && !s1.contains_key(l) implies s2[l] == leaf(l, true) by {
                assert(pattern_vars(t).contains(l));
            }
            lemma_subst_unbound_leaves(t.args[i], s1, s2);
        }
        assert(subst(t, s2).args =~= subst(t, s1).args);
    }
}

/// `sigma`, with every variable of `t` that it leaves unbound bound to the
/// variable alone.
pub open spec fn fill_bindings(t: Term, sigma: Map<Label, Term>) -> Map<Label, Term> {
    Map::new(
        |l: Label| sigma.contains_key(l) || pattern_vars(t).contains(l),
        |l: Label|
            if sigma.contains_key(l) {
                sigma[l]
            } else {
                leaf(l, true)
            },
    )
}

/// For a model whose variable nodes have no subterms, matching succeeds
/// whenever some substitution, binding all, some or none of the model's
/// variables, makes the model equal, as a formula, to `s`. It binds exactly the
/// model's variables, each of those that the substitution binds to a formula
/// equal to its binding there.
pub proof fn lemma_unify_complete_leaves(s: Term, o: Term, sigma: Map<Label, Term>)
    requires
        vars_are_leaves(o),
        sub_equal(subst(o, sigma), s),
    ensures
        unify_term(s, o, Map::empty()) is Some,
        unify_term(s, o, Map::empty()).unwrap().dom() == pattern_vars(o),
        forall|l: Label|
            #[trigger] unify_term(s, o, Map::empty()).unwrap().contains_key(l) && sigma.contains_key(l)
                ==> sub_equal(unify_term(s, o, Map::empty()).unwrap()[l], sigma[l]),
{
    let full = fill_bindings(o, sigma);
    assert(sigma.submap_of(full));
    lemma_subst_unbound_leaves(o, sigma, full);
    assert(pattern_vars(o).subset_of(full.dom()));
    lemma_unify_complete_up_to_equality(s, o, full);
    let m = unify_term(s, o, Map::empty()).unwrap();
    assert forall|l: Label| #[trigger] m.contains_key(l) && sigma.contains_key(l) implies sub_equal(
        m[l],
        sigma[l],
    ) by {
        assert(full[l] == sigma[l]);
    }
}

/// For a model whose variable nodes have no subterms, matching fails exactly
/// when no substitution at all, whichever of the model's variables it binds,
/// makes the model equal, as a formula, to `s`.
pub proof fn lemma_unify_fails_iff_leaves(s: Term, o: Term)
    requires
        vars_are_leaves(o),
    ensures
        unify_term(s, o, Map::empty()) is None <==> !exists|sigma: Map<Label, Term>|
            #[trigger] sub_equal(subst(o, sigma), s),
{
    if unify_term(s, o, Map::empty()) is Some {
        lemma_unify_sound(s, o);
        let m = unify_term(s, o, Map::empty()).unwrap();
        assert(sub_equal(subst(o, m), s));
    } else {
        assert forall|sigma: Map<Label, Term>| !#[trigger] sub_equal(subst(o, sigma), s) by {
            if sub_equal(subst(o, sigma), s) {
                lemma_unify_complete_leaves(s, o, sigma);
            }
        }
    }
}

} // verus!
