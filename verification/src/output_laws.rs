//! What paths, renderings, encodings and syntax proofs give, stated without
//! reference to how they are computed.

use vstd::prelude::*;
use crate::database::{
    encode, encode_symbol, flat, flat_from, flattens_from, Database, Hyp, MathToken, SymbolType,
};
use crate::formula::{child_items, floating_items, proof_steps, spaced_names};
use crate::term::{label_at, sum_sizes, Term};
use crate::{Label, Symbol};

verus! {

/// The empty path leads to the root.
pub proof fn lemma_label_at_empty(t: Term)
    ensures
        label_at(t, Seq::empty()) == Some(t.label),
{
}

/// A path that starts with the index of a subterm leads where the rest of the
/// path leads from that subterm, whatever the length of the rest.
pub proof fn lemma_label_at_cons(t: Term, i: usize, rest: Seq<usize>)
    requires
        i < t.args.len(),
    ensures
        label_at(t, seq![i] + rest) == label_at(t.args[i as int], rest),
{
    assert((seq![i] + rest).drop_first() =~= rest);
}

/// A path that starts with an index past the subterms leads nowhere.
pub proof fn lemma_label_at_out_of_range(t: Term, i: usize, rest: Seq<usize>)
    requires
        i >= t.args.len(),
    ensures
        label_at(t, seq![i] + rest) is None,
{
}

/// The hypotheses handed over for a list of hypotheses are those handed over
/// for each part of it, in order.
pub proof fn lemma_floating_items_concat<I>(h1: Seq<Hyp>, h2: Seq<Hyp>, ch: Seq<I>)
    ensures
        floating_items(h1 + h2, ch) == floating_items(h1, ch) + floating_items(h2, ch),
    decreases h2.len(),
{
    if h2.len() == 0 {
        assert(h1 + h2 =~= h1);
        assert(floating_items(h1, ch) + floating_items(h2, ch) =~= floating_items(h1, ch));
    } else {
        lemma_floating_items_concat(h1, h2.drop_last(), ch);
        assert((h1 + h2).drop_last() =~= h1 + h2.drop_last());
        assert((h1 + h2).last() == h2.last());
        assert(floating_items(h1 + h2, ch) =~= floating_items(h1, ch) + floating_items(h2, ch));
    }
}

/// When every hypothesis is floating, one item is handed over per hypothesis:
/// the `k`-th is the item of the subterm that the `k`-th hypothesis names.
pub proof fn lemma_floating_items_all_floating<I>(hyps: Seq<Hyp>, ch: Seq<I>)
    requires
        forall|j: int| 0 <= j < hyps.len() ==> #[trigger] hyps[j] is Floating,
    ensures
        floating_items(hyps, ch).len() == hyps.len(),
        forall|k: int|
            0 <= k < hyps.len() ==> #[trigger] floating_items(hyps, ch)[k] == ch[hyps[k]->0 as int],
    decreases hyps.len(),
{
    if hyps.len() > 0 {
        let h = hyps.drop_last();
        assert forall|j: int| 0 <= j < h.len() implies #[trigger] h[j] is Floating by {
            assert(hyps[j] is Floating);
        }
        lemma_floating_items_all_floating(h, ch);
        assert(hyps[hyps.len() - 1] is Floating);
        assert forall|k: int|
            0 <= k < hyps.len() implies #[trigger] floating_items(hyps, ch)[k] == ch[hyps[k]->0 as int] by {
            if k < hyps.len() - 1 {
                assert(h[k] == hyps[k]);
            }
        }
    }
}

/// The last step of the syntax proof of `t` is `t`'s own: it applies the
/// statement of `t`'s label, and when that statement has only floating
/// hypotheses, it receives one item per hypothesis, the `k`-th being the
/// item of the last step of the proof of the subterm that hypothesis names.
pub proof fn lemma_proof_step_of_node<I>(
    db: Database,
    t: Term,
    b: nat,
    buf: Seq<u8>,
    items: Seq<I>,
)
    requires
        db.statement(t.label) is Some,
        forall|j: int|
            0 <= j < db.statement(t.label).unwrap().hypotheses@.len() ==> {
                let h = #[trigger] db.statement(t.label).unwrap().hypotheses@[j];
                h is Floating && h->0 < t.args.len()
            },
    ensures
        ({
            let st = db.statement(t.label).unwrap();
            let step = proof_steps(db, t, b, buf, items).last();
            &&& step.address == st.address
            &&& step.hyps.len() == st.hypotheses@.len()
            &&& forall|k: int|
                0 <= k < st.hypotheses@.len() ==> #[trigger] step.hyps[k] == items[b + sum_sizes(
                    t.args,
                    (st.hypotheses@[k]->0 + 1) as nat,
                ) - 1]
        }),
{
    let st = db.statement(t.label).unwrap();
    let hyps = st.hypotheses@;
    assert forall|j: int| 0 <= j < hyps.len() implies #[trigger] hyps[j] is Floating by {
        assert(db.statement(t.label).unwrap().hypotheses@[j] is Floating);
    }
    lemma_floating_items_all_floating(hyps, child_items(t, b, items));
    let step = proof_steps(db, t, b, buf, items).last();
    assert forall|k: int| 0 <= k < hyps.len() implies #[trigger] step.hyps[k] == items[b + sum_sizes(
        t.args,
        (hyps[k]->0 + 1) as nat,
    ) - 1] by {
        assert(db.statement(t.label).unwrap().hypotheses@[k]->0 < t.args.len());
    }
}

/// The number of variable tokens among tokens `1 .. k` of `math`.
pub open spec fn count_vars(math: Seq<MathToken>, k: int) -> nat
    decreases k,
{
    if k <= 1 || k > math.len() {
        0
    } else {
        count_vars(math, k - 1) + if math[k - 1].stype == SymbolType::Variable {
            1nat
        } else {
            0nat
        }
    }
}

/// What token `j` of the statement of `t` stands for when `t` is written out:
/// its own symbol if it is a constant or `t` has no subterm, else the symbols
/// of the subterm that comes next, counting the variable tokens before it.
pub open spec fn token_piece(db: Database, t: Term, j: int) -> Seq<Symbol> {
    let math = db.math(t.label);
    if math[j].stype == SymbolType::Constant || t.args.len() == 0 {
        seq![math[j].symbol]
    } else {
        flat(db, t.args[count_vars(math, j) as int])
    }
}

/// The pieces of tokens `k ..` of the statement of `t`.
pub open spec fn pieces_from(db: Database, t: Term, k: int) -> Seq<Seq<Symbol>> {
    Seq::new((db.math(t.label).len() - k) as nat, |j: int| token_piece(db, t, k + j))
}

/// Writing a term out gives the tokens of its statement after the typecode,
/// each variable token replaced, in order, by the symbols of the next subterm,
/// for all of them.
pub proof fn lemma_flat_pieces(db: Database, t: Term)
    requires
        flattens_from(db, t, 1, 0),
        db.math(t.label).len() >= 1,
    ensures
        flat(db, t) == pieces_from(db, t, 1).flatten(),
{
    lemma_flat_from_pieces(db, t, 1, 0);
}

proof fn lemma_flat_from_pieces(db: Database, t: Term, k: int, c: int)
    requires
        1 <= k <= db.math(t.label).len(),
        flattens_from(db, t, k, c),
        t.args.len() == 0 || c == count_vars(db.math(t.label), k),
    ensures
        flat_from(db, t, k, c) == pieces_from(db, t, k).flatten(),
    decreases db.math(t.label).len() - k,
{
    let math = db.math(t.label);
    let p = pieces_from(db, t, k);
    if k == math.len() {
        assert(p =~= Seq::<Seq<Symbol>>::empty());
    } else {
        assert(p.drop_first() =~= pieces_from(db, t, k + 1));
        assert(p[0] == token_piece(db, t, k));
        let tok = math[k];
        if tok.stype == SymbolType::Constant || t.args.len() == 0 {
            lemma_flat_from_pieces(db, t, k + 1, c);
        } else {
            lemma_flat_from_pieces(db, t, k + 1, c + 1);
        }
    }
}

/// Writing out a term with subterms gives at least one symbol per constant
/// token of its statement.
pub proof fn lemma_flat_len_constants(db: Database, t: Term)
    requires
        flattens_from(db, t, 1, 0),
        db.math(t.label).len() >= 1,
    ensures
        flat(db, t).len() >= count_constants(db.math(t.label), 1),
{
    lemma_flat_pieces(db, t);
    lemma_pieces_len(db, t, 1);
}

/// The number of constant tokens among tokens `k ..` of `math`.
pub open spec fn count_constants(math: Seq<MathToken>, k: int) -> nat
    decreases math.len() - k,
{
    if k < 0 || k >= math.len() {
        0
    } else {
        count_constants(math, k + 1) + if math[k].stype == SymbolType::Constant {
            1nat
        } else {
            0nat
        }
    }
}

proof fn lemma_pieces_len(db: Database, t: Term, k: int)
    requires
        0 <= k <= db.math(t.label).len(),
    ensures
        pieces_from(db, t, k).flatten().len() >= count_constants(db.math(t.label), k),
    decreases db.math(t.label).len() - k,
{
    let p = pieces_from(db, t, k);
    if k < db.math(t.label).len() {
        assert(p.drop_first() =~= pieces_from(db, t, k + 1));
        lemma_pieces_len(db, t, k + 1);
    }
}

/// Encoding a symbol with a non-empty name appends its name, with the high bit
/// set on the last appended byte and on no other.
pub proof fn lemma_encode_symbol_bytes(db: Database, buf: Seq<u8>, sym: Symbol)
    requires
        db.name(sym) is Some,
        db.name(sym).unwrap().len() > 0,
    ensures
        ({
            let n = db.name(sym).unwrap();
            let r = encode_symbol(db, buf, sym);
            &&& r.len() == buf.len() + n.len()
            &&& r.subrange(0, buf.len() as int) == buf
            &&& forall|j: int| 0 <= j < n.len() - 1 ==> #[trigger] r[buf.len() + j] == n[j]
            &&& r[r.len() - 1] == n[n.len() - 1] | 0x80u8
        }),
{
    let n = db.name(sym).unwrap();
    let r = encode_symbol(db, buf, sym);
    assert(r.subrange(0, buf.len() as int) =~= buf);
}

/// Encoding a list of symbols encodes its parts in turn.
pub proof fn lemma_encode_concat(db: Database, buf: Seq<u8>, s1: Seq<Symbol>, s2: Seq<Symbol>)
    ensures
        encode(db, buf, s1 + s2) == encode(db, encode(db, buf, s1), s2),
    decreases s1.len(),
{
    if s1.len() == 0 {
        assert(s1 + s2 =~= s2);
    } else {
        assert((s1 + s2).drop_first() =~= s1.drop_first() + s2);
        lemma_encode_concat(db, encode_symbol(db, buf, s1[0]), s1.drop_first(), s2);
    }
}

/// Encoding one symbol is `encode_symbol`.
pub proof fn lemma_encode_single(db: Database, buf: Seq<u8>, sym: Symbol)
    ensures
        encode(db, buf, seq![sym]) == encode_symbol(db, buf, sym),
{
    let s = encode_symbol(db, buf, sym);
    let one = seq![sym];
    assert(one.len() == 1 && one[0] == sym);
    assert(one.drop_first() =~= Seq::<Symbol>::empty());
    assert(encode(db, s, Seq::<Symbol>::empty()) == s);
    assert(encode(db, buf, one) == encode(db, encode_symbol(db, buf, one[0]), one.drop_first()));
}

/// Rendering a list of symbols renders each, in order, after one space.
pub proof fn lemma_spaced_names_push(db: Database, syms: Seq<Symbol>, x: Symbol)
    ensures
        spaced_names(db, syms.push(x)) == spaced_names(db, syms) + seq![32u8] + db.name(x).unwrap(),
    decreases syms.len(),
{
    if syms.len() == 0 {
        let one = syms.push(x);
        assert(one.len() == 1 && one[0] == x);
        assert(one.drop_first() =~= Seq::<Symbol>::empty());
        assert(spaced_names(db, Seq::<Symbol>::empty()) == Seq::<u8>::empty());
        assert(spaced_names(db, syms) == Seq::<u8>::empty());
        assert(spaced_names(db, one) == seq![32u8] + db.name(x).unwrap() + spaced_names(
            db,
            one.drop_first(),
        ));
        assert(spaced_names(db, syms.push(x)) =~= seq![32u8] + db.name(x).unwrap());
        assert(spaced_names(db, syms) + seq![32u8] + db.name(x).unwrap() =~= seq![32u8] + db.name(
            x,
        ).unwrap());
    } else {
        assert(syms.push(x).drop_first() =~= syms.drop_first().push(x));
        lemma_spaced_names_push(db, syms.drop_first(), x);
        assert(spaced_names(db, syms.push(x)) =~= spaced_names(db, syms) + seq![32u8] + db.name(
            x,
        ).unwrap());
    }
}

/// Rendering a list of symbols renders its parts in turn.
pub proof fn lemma_spaced_names_concat(db: Database, s1: Seq<Symbol>, s2: Seq<Symbol>)
    ensures
        spaced_names(db, s1 + s2) == spaced_names(db, s1) + spaced_names(db, s2),
    decreases s1.len(),
{
    if s1.len() == 0 {
        assert(s1 + s2 =~= s2);
        assert(spaced_names(db, s1) + spaced_names(db, s2) =~= spaced_names(db, s2));
    } else {
        assert((s1 + s2).drop_first() =~= s1.drop_first() + s2);
        lemma_spaced_names_concat(db, s1.drop_first(), s2);
        assert(spaced_names(db, s1 + s2) =~= spaced_names(db, s1) + spaced_names(db, s2));
    }
}

} // verus!
