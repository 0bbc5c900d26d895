use lib::database::{Database, Hyp, MathToken, Statement, StatementAddress, SymbolType};
use lib::formula::{Formula, FormulaBuilder, StepList, Substitutions};

// Atoms: names of typecodes, symbols and labels share one table.
const WFF: u32 = 1;
const PH: u32 = 3;
const PS: u32 = 4;
const LP: u32 = 5;
const RP: u32 = 6;
const IMP: u32 = 7;
const WPH: u32 = 8;
const WPS: u32 = 9;
const WI: u32 = 10;
const WN: u32 = 11;
const NOT: u32 = 12;
const WCH: u32 = 13;
const CH: u32 = 14;
const WR: u32 = 15;
const COMMA: u32 = 16;

fn tok(symbol: u32, stype: SymbolType) -> MathToken {
    MathToken { symbol, stype }
}

fn stmt(index: i32, math: Vec<MathToken>, hypotheses: Vec<Hyp>) -> Option<Statement> {
    Some(Statement { address: StatementAddress { segment_id: 0, index }, math, hypotheses })
}

fn database() -> Database {
    let names: Vec<Vec<u8>> = vec![
        b"".to_vec(),
        b"wff".to_vec(),
        b"|-".to_vec(),
        b"ph".to_vec(),
        b"ps".to_vec(),
        b"(".to_vec(),
        b")".to_vec(),
        b"->".to_vec(),
        b"wph".to_vec(),
        b"wps".to_vec(),
        b"wi".to_vec(),
        b"wn".to_vec(),
        b"-.".to_vec(),
        b"wch".to_vec(),
        b"ch".to_vec(),
        b"wr".to_vec(),
        b",".to_vec(),
    ];
    let c = SymbolType::Constant;
    let v = SymbolType::Variable;
    let mut statements: Vec<Option<Statement>> = vec![None; 17];
    statements[WPH as usize] = stmt(1, vec![tok(WFF, c), tok(PH, v)], vec![]);
    statements[WPS as usize] = stmt(2, vec![tok(WFF, c), tok(PS, v)], vec![]);
    statements[WCH as usize] = stmt(3, vec![tok(WFF, c), tok(CH, v)], vec![]);
    statements[WN as usize] =
        stmt(4, vec![tok(WFF, c), tok(NOT, c), tok(PH, v)], vec![Hyp::Floating(0)]);
    statements[WI as usize] = stmt(
        5,
        vec![tok(WFF, c), tok(LP, c), tok(PH, v), tok(IMP, c), tok(PS, v), tok(RP, c)],
        vec![Hyp::Floating(0), Hyp::Floating(1)],
    );
    // floating hypotheses listed in the reverse order of the variables
    statements[WR as usize] = stmt(
        6,
        vec![tok(WFF, c), tok(LP, c), tok(PH, v), tok(COMMA, c), tok(PS, v), tok(RP, c)],
        vec![Hyp::Floating(1), Hyp::Essential, Hyp::Floating(0)],
    );
    Database::new(names, statements)
}

/// A tree given in prefix form, as (label, is_variable, children).
enum T {
    N(u32, bool, Vec<T>),
}

fn var(label: u32) -> T {
    T::N(label, true, vec![])
}

fn app(label: u32, args: Vec<T>) -> T {
    T::N(label, false, args)
}

fn push(b: &mut FormulaBuilder, t: &T) {
    let T::N(label, is_var, args) = t;
    for a in args {
        push(b, a);
    }
    b.reduce(*label, args.len() as u8, 0, *is_var);
}

fn formula(t: T) -> Formula {
    let mut b = FormulaBuilder::new();
    push(&mut b, &t);
    b.build(WFF)
}

/// wff ( ph -> ps )
fn ph_imp_ps() -> Formula {
    formula(app(WI, vec![var(WPH), var(WPS)]))
}

#[test]
fn get_by_path_follows_children() {
    let f = formula(app(WI, vec![var(WPH), app(WN, vec![var(WPS)])]));
    assert_eq!(f.get_by_path(&[]), Some(WI));
    assert_eq!(f.get_by_path(&[0]), Some(WPH));
    assert_eq!(f.get_by_path(&[1]), Some(WN));
    assert_eq!(f.get_by_path(&[1, 0]), Some(WPS));
    assert_eq!(f.get_by_path(&[2]), None);
    assert_eq!(f.get_by_path(&[0, 0]), None);
}

#[test]
fn unify_binds_variables_of_the_model() {
    // ( -. ch -> ( ph -> ps ) ) against the model ( ph -> ps )
    let target = formula(app(
        WI,
        vec![app(WN, vec![var(WCH)]), app(WI, vec![var(WPH), var(WPS)])],
    ));
    let model = ph_imp_ps();
    let subst = target.unify(&model).expect("unifies");
    assert!(*subst.index(WPH) == formula(app(WN, vec![var(WCH)])));
    assert!(*subst.index(WPS) == ph_imp_ps());
    assert!(model.substitute(&subst) == target);
}

#[test]
fn unify_fails_on_different_labels() {
    let target = formula(app(WN, vec![var(WPH)]));
    assert!(target.unify(&ph_imp_ps()).is_none());
}

#[test]
fn unify_fails_on_inconsistent_binding() {
    // ( ph -> ps ) against the model ( ph -> ph )
    let model = formula(app(WI, vec![var(WPH), var(WPH)]));
    assert!(ph_imp_ps().unify(&model).is_none());
    // ( ps -> ps ) matches it
    let target = formula(app(WI, vec![var(WPS), var(WPS)]));
    let subst = target.unify(&model).expect("unifies");
    assert!(*subst.index(WPH) == formula(var(WPS)));
}

#[test]
fn substitute_replaces_bound_variables_only() {
    let mut subst = Substitutions::default();
    subst.insert(WPH, formula(app(WN, vec![var(WCH)])));
    let result = ph_imp_ps().substitute(&subst);
    let expected = formula(app(WI, vec![app(WN, vec![var(WCH)]), var(WPS)]));
    assert!(result == expected);
    assert_eq!(result.get_by_path(&[0, 0]), Some(WCH));
    assert_eq!(result.get_by_path(&[1]), Some(WPS));
}

#[test]
fn substitute_nothing_is_identity() {
    let f = formula(app(WI, vec![app(WN, vec![var(WPH)]), var(WPS)]));
    assert!(f.substitute(&Substitutions::default()) == f);
}

#[test]
fn unify_finds_the_substitution_it_was_built_with() {
    let model = formula(app(WI, vec![var(WPH), app(WN, vec![var(WPS)])]));
    let mut subst = Substitutions::default();
    subst.insert(WPH, formula(app(WN, vec![var(WCH)])));
    subst.insert(WPS, ph_imp_ps());
    let target = model.substitute(&subst);
    let found = target.unify(&model).expect("unifies");
    assert!(*found.index(WPH) == *subst.index(WPH));
    assert!(*found.index(WPS) == *subst.index(WPS));
}

#[test]
fn insert_returns_previous_binding() {
    let mut subst = Substitutions::default();
    assert!(subst.insert(WPH, formula(var(WPS))).is_none());
    let old = subst.insert(WPH, formula(var(WCH))).expect("bound before");
    assert!(old == formula(var(WPS)));
    assert!(*subst.index(WPH) == formula(var(WCH)));
}

#[test]
fn extend_prefers_the_provided_bindings() {
    let mut a = Substitutions::default();
    a.insert(WPH, formula(var(WPS)));
    a.insert(WCH, formula(var(WCH)));
    let mut b = Substitutions::default();
    b.insert(WPH, formula(var(WCH)));
    b.insert(WPS, ph_imp_ps());
    a.extend(&b);
    assert!(*a.index(WPH) == formula(var(WCH)));
    assert!(*a.index(WPS) == ph_imp_ps());
    assert!(*a.index(WCH) == formula(var(WCH)));
}

#[test]
fn equality_compares_labels_and_shape() {
    assert!(ph_imp_ps() == ph_imp_ps());
    assert!(ph_imp_ps() != formula(app(WI, vec![var(WPS), var(WPH)])));
    assert!(formula(var(WPH)) != formula(app(WN, vec![var(WPH)])));
    // A formula with fewer subformulas is another formula.
    assert!(formula(app(WI, vec![var(WPH), var(WPS)])) != formula(app(WI, vec![var(WPH)])));
    assert!(formula(app(WI, vec![var(WPH)])) != formula(app(WI, vec![var(WPH), var(WPS)])));
}

#[test]
fn reduce_with_offset_leaves_top_items_aside() {
    let mut b = FormulaBuilder::new();
    b.reduce(WPH, 0, 0, true);
    b.reduce(WPS, 0, 0, true);
    // wn over wph, leaving wps on top
    b.reduce(WN, 1, 1, false);
    b.reduce(WI, 2, 0, false);
    let f = b.build(WFF);
    assert!(f == formula(app(WI, vec![app(WN, vec![var(WPH)]), var(WPS)])));
}

#[test]
fn flatten_gives_the_symbols() {
    let db = database();
    let f = formula(app(WI, vec![app(WN, vec![var(WPH)]), var(WPS)]));
    let mut it = f.as_ref(&db).iter();
    let mut syms = vec![];
    while let Some(s) = it.next() {
        syms.push(s);
    }
    assert_eq!(syms, vec![LP, NOT, PH, IMP, PS, RP]);
    assert_eq!(it.next(), None);
}

#[test]
fn display_and_debug_renderings() {
    let db = database();
    let f = formula(app(WI, vec![app(WN, vec![var(WPH)]), var(WPS)]));
    assert_eq!(f.as_ref(&db).display_bytes(), b"wff ( -. ph -> ps )".to_vec());
    assert_eq!(f.as_ref(&db).debug_bytes(), b"wi(wn(wph), wps)".to_vec());
    assert_eq!(formula(var(WPH)).as_ref(&db).debug_bytes(), b"wph".to_vec());
}

#[test]
fn append_to_stack_buffer_marks_token_ends() {
    let db = database();
    let f = ph_imp_ps();
    let mut buf = vec![1u8, 2u8];
    let range = f.as_ref(&db).append_to_stack_buffer(&mut buf);
    assert_eq!(range, 2..10);
    let expected: Vec<u8> =
        vec![1, 2, b'(' | 0x80, b'p', b'h' | 0x80, b'-', b'>' | 0x80, b'p', b's' | 0x80, b')' | 0x80];
    assert_eq!(buf, expected);
}

fn bytes(s: &str) -> Vec<u8> {
    // the encoding of a string of space-separated tokens
    let mut out = vec![];
    for t in s.split(' ') {
        out.extend_from_slice(t.as_bytes());
        let l = out.len() - 1;
        out[l] |= 0x80;
    }
    out
}

#[test]
fn build_syntax_proof_orders_hypotheses() {
    let db = database();
    // ( ps -> ph ): children in the order of the math string
    let f = formula(app(WI, vec![var(WPS), var(WPH)]));
    let mut buf = vec![];
    let mut steps = StepList::new();
    let top = f.as_ref(&db).build_syntax_proof(&mut buf, &mut steps);
    assert_eq!(top, 2);
    assert_eq!(steps.steps.len(), 3);
    assert_eq!(steps.steps[0].address.index, 2);
    assert_eq!(steps.steps[1].address.index, 1);
    assert_eq!(steps.steps[2].address.index, 5);
    assert_eq!(steps.steps[2].hyps, vec![0, 1]);
    // each step receives its own subformula
    assert_eq!(steps.steps[0].expr, bytes("ps"));
    assert_eq!(steps.steps[1].expr, bytes("ph"));
    assert_eq!(steps.steps[2].expr, bytes("( ps -> ph )"));
    let mut all = bytes("ps");
    all.extend(bytes("ph"));
    all.extend(bytes("( ps -> ph )"));
    assert_eq!(buf, all);
}

#[test]
fn build_syntax_proof_follows_floating_hypotheses() {
    let db = database();
    // ( ph , -. ps ): the statement lists ps's hypothesis before ph's
    let f = formula(app(WR, vec![var(WPH), app(WN, vec![var(WPS)])]));
    let mut buf = vec![7u8];
    let mut steps = StepList::new();
    let top = f.as_ref(&db).build_syntax_proof(&mut buf, &mut steps);
    assert_eq!(top, 3);
    let addrs: Vec<i32> = steps.steps.iter().map(|s| s.address.index).collect();
    assert_eq!(addrs, vec![1, 2, 4, 6]);
    assert_eq!(steps.steps[2].hyps, vec![1]);
    // the hypothesis of the second variable first, the essential one left out
    assert_eq!(steps.steps[3].hyps, vec![2, 0]);
    assert_eq!(steps.steps[2].expr, bytes("-. ps"));
    assert_eq!(steps.steps[3].expr, bytes("( ph , -. ps )"));
    assert_eq!(buf[0], 7u8);
}

#[test]
fn unify_fails_on_different_numbers_of_subformulas() {
    let target = formula(app(WI, vec![var(WPH), var(WPS)]));
    let model = formula(app(WI, vec![var(WCH)]));
    assert!(target.unify(&model).is_none());
}

#[test]
fn unify_with_itself_binds_variables_to_themselves() {
    let f = formula(app(WI, vec![var(WPH), app(WN, vec![var(WPS)])]));
    let subst = f.unify(&f).expect("unifies");
    assert!(*subst.index(WPH) == formula(var(WPH)));
    assert!(*subst.index(WPS) == formula(var(WPS)));
    assert!(f.substitute(&subst) == f);
}

#[test]
fn substituting_twice_is_substituting_the_composition() {
    let f = formula(app(WI, vec![var(WPH), var(WPS)]));
    let mut s1 = Substitutions::default();
    s1.insert(WPH, formula(app(WN, vec![var(WPS)])));
    let mut s2 = Substitutions::default();
    s2.insert(WPS, formula(var(WCH)));
    // the composition: ph := -. ch, ps := ch
    let mut s3 = Substitutions::default();
    s3.insert(WPH, formula(app(WN, vec![var(WCH)])));
    s3.insert(WPS, formula(var(WCH)));
    assert!(f.substitute(&s1).substitute(&s2) == f.substitute(&s3));
    assert!(f.substitute(&s3) == formula(app(WI, vec![app(WN, vec![var(WCH)]), var(WCH)])));
}

#[test]
fn clone_shares_and_compares_equal() {
    let f = formula(app(WI, vec![app(WN, vec![var(WPH)]), var(WPS)]));
    let g = f.clone();
    assert!(f == g);
    assert_eq!(g.get_by_path(&[0, 0]), Some(WPH));
    let subst = f.unify(&ph_imp_ps()).expect("unifies");
    // the bound formulas are subformulas of `f`, sharing its tree
    assert!(*subst.index(WPH) == subst.index(WPH).clone());
    assert!(*subst.index(WPH) == formula(app(WN, vec![var(WPH)])));
}

#[test]
fn unify_variable_against_variable() {
    // a variable model matches any formula, and binds it whole
    let target = formula(app(WN, vec![app(WN, vec![var(WPS)])]));
    let model = formula(var(WPH));
    let subst = target.unify(&model).expect("unifies");
    assert!(*subst.index(WPH) == target);
}

#[test]
fn unify_succeeds_when_a_substitution_leaves_variables_unbound() {
    let model = formula(app(WI, vec![var(WPH), var(WPS)]));
    let mut sigma = Substitutions::default();
    sigma.insert(WPH, formula(app(WN, vec![var(WCH)])));
    let target = model.substitute(&sigma);
    let found = target.unify(&model).expect("unifies");
    assert!(*found.index(WPH) == *sigma.index(WPH));
    // the variable left unbound is bound to itself
    assert!(*found.index(WPS) == formula(var(WPS)));
}
