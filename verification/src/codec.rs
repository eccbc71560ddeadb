//! Deterministic, lossless persistence for the ontology graph: a textual
//! encoding of the label list and the arrow log, from which the adjacency
//! bookkeeping is reproduced exactly.
//!
//! Numbers are written as little-endian decimal digit runs closed by `;`;
//! strings are length-prefixed; lists are count-prefixed.

use vstd::prelude::*;

use crate::ontology::{
    arrows_grounded, distinct_labels, graph_of, inv, lemma_inv_graph, lemma_wf_graph, Arrow,
    ArrowView, Ontology, OntologyView,
};
use crate::relation::{Atom, AtomView, Constraint, ConstraintView};
use vstd::string::StrSliceExecFns;
use vstd::string::StringExecFns;

verus! {

pub open spec fn is_digit_char(c: char) -> bool {
    c == '0' || c == '1' || c == '2' || c == '3' || c == '4' || c == '5' || c == '6' || c == '7'
        || c == '8' || c == '9'
}

pub open spec fn digit_val(c: char) -> nat {
    if c == '0' {
        0
    } else if c == '1' {
        1
    } else if c == '2' {
        2
    } else if c == '3' {
        3
    } else if c == '4' {
        4
    } else if c == '5' {
        5
    } else if c == '6' {
        6
    } else if c == '7' {
        7
    } else if c == '8' {
        8
    } else {
        9
    }
}

pub open spec fn digit_char(k: nat) -> char {
    if k == 0 {
        '0'
    } else if k == 1 {
        '1'
    } else if k == 2 {
        '2'
    } else if k == 3 {
        '3'
    } else if k == 4 {
        '4'
    } else if k == 5 {
        '5'
    } else if k == 6 {
        '6'
    } else if k == 7 {
        '7'
    } else if k == 8 {
        '8'
    } else {
        '9'
    }
}

/// The little-endian decimal digits of a number, least significant first.
pub open spec fn digits(n: nat) -> Seq<char>
    decreases n,
{
    if n < 10 {
        seq![digit_char(n)]
    } else {
        seq![digit_char(n % 10)] + digits(n / 10)
    }
}

/// A number: its digit run closed by `;`.
pub open spec fn enc_num(n: nat) -> Seq<char> {
    digits(n) + seq![';']
}

/// A string: its length, then its characters.
pub open spec fn enc_str(s: Seq<char>) -> Seq<char> {
    enc_num(s.len()) + s
}

/// A list of strings, one after the other.
pub open spec fn enc_strs(xs: Seq<Seq<char>>) -> Seq<char>
    decreases xs.len(),
{
    if xs.len() == 0 {
        Seq::empty()
    } else {
        enc_str(xs.first()) + enc_strs(xs.drop_first())
    }
}

/// A constraint: its parameter name, then its permitted values.
pub open spec fn enc_constraint(c: ConstraintView) -> Seq<char> {
    enc_str(c.parameter) + enc_num(c.values.len()) + enc_strs(c.values)
}

/// A list of constraints, one after the other.
pub open spec fn enc_constraints(cs: Seq<ConstraintView>) -> Seq<char>
    decreases cs.len(),
{
    if cs.len() == 0 {
        Seq::empty()
    } else {
        enc_constraint(cs.first()) + enc_constraints(cs.drop_first())
    }
}

/// A relation value: a kind tag, and for a specialized subset its
/// constraints.
pub open spec fn enc_atom(a: AtomView) -> Seq<char> {
    match a {
        AtomView::IsHyponymOf => seq!['h'],
        AtomView::IsMeronymOf => seq!['m'],
        AtomView::IsTokenOf => seq!['t'],
        AtomView::IsSpecializedSubsetOf(cs) => seq!['s'] + enc_num(cs.len()) + enc_constraints(cs),
    }
}

/// An arrow: its relation value, source label and target label.
pub open spec fn enc_arrow(a: ArrowView) -> Seq<char> {
    enc_atom(a.data) + enc_str(a.source) + enc_str(a.target)
}

/// A list of arrows, one after the other.
pub open spec fn enc_arrows(arrows: Seq<ArrowView>) -> Seq<char>
    decreases arrows.len(),
{
    if arrows.len() == 0 {
        Seq::empty()
    } else {
        enc_arrow(arrows.first()) + enc_arrows(arrows.drop_first())
    }
}

/// The serialized form of a graph: its label list, then its arrow log.
pub open spec fn spec_encode(v: OntologyView) -> Seq<char> {
    enc_num(v.labels.len()) + enc_strs(v.labels) + enc_num(v.arrows.len()) + enc_arrows(v.arrows)
}

/// Reads a digit run closed by `;`; fails on a missing digit, a missing
/// closer, or a value the machine cannot hold.
pub open spec fn parse_num(s: Seq<char>) -> Option<(nat, Seq<char>)>
    decreases s.len(),
{
    if s.len() < 2 || !is_digit_char(s[0]) {
        None
    } else {
        let d = digit_val(s[0]);
        if is_digit_char(s[1]) {
            match parse_num(s.drop_first()) {
                None => None,
                Some((m, rest)) => if d + 10 * m <= usize::MAX {
                    Some(((d + 10 * m) as nat, rest))
                } else {
                    None
                },
            }
        } else if s[1] == ';' {
            Some((d, s.skip(2)))
        } else {
            None
        }
    }
}

/// Reads a length-prefixed string.
pub open spec fn parse_str(s: Seq<char>) -> Option<(Seq<char>, Seq<char>)> {
    match parse_num(s) {
        None => None,
        Some((n, rest)) => if n <= rest.len() {
            Some((rest.take(n as int), rest.skip(n as int)))
        } else {
            None
        },
    }
}

/// Reads `count` strings, one after the other.
pub open spec fn parse_strs(s: Seq<char>, count: nat) -> Option<(Seq<Seq<char>>, Seq<char>)>
    decreases count,
{
    if count == 0 {
        Some((Seq::empty(), s))
    } else {
        match parse_str(s) {
            None => None,
            Some((x, rest)) => match parse_strs(rest, (count - 1) as nat) {
                None => None,
                Some((xs, rest2)) => Some((seq![x] + xs, rest2)),
            },
        }
    }
}

/// Reads one constraint.
pub open spec fn parse_constraint(s: Seq<char>) -> Option<(ConstraintView, Seq<char>)> {
    match parse_str(s) {
        None => None,
        Some((p, rest)) => match parse_num(rest) {
            None => None,
            Some((n, rest2)) => match parse_strs(rest2, n) {
                None => None,
                Some((vs, rest3)) => Some(
                    (ConstraintView { parameter: p, values: vs }, rest3),
                ),
            },
        },
    }
}

/// Reads `count` constraints, one after the other.
pub open spec fn parse_constraints(s: Seq<char>, count: nat) -> Option<
    (Seq<ConstraintView>, Seq<char>),
>
    decreases count,
{
    if count == 0 {
        Some((Seq::empty(), s))
    } else {
        match parse_constraint(s) {
            None => None,
            Some((c, rest)) => match parse_constraints(rest, (count - 1) as nat) {
                None => None,
                Some((cs, rest2)) => Some((seq![c] + cs, rest2)),
            },
        }
    }
}

/// Reads one relation value.
pub open spec fn parse_atom(s: Seq<char>) -> Option<(AtomView, Seq<char>)> {
    if s.len() == 0 {
        None
    } else if s[0] == 'h' {
        Some((AtomView::IsHyponymOf, s.drop_first()))
    } else if s[0] == 'm' {
        Some((AtomView::IsMeronymOf, s.drop_first()))
    } else if s[0] == 't' {
        Some((AtomView::IsTokenOf, s.drop_first()))
    } else if s[0] == 's' {
        match parse_num(s.drop_first()) {
            None => None,
            Some((n, rest)) => match parse_constraints(rest, n) {
                None => None,
                Some((cs, rest2)) => Some((AtomView::IsSpecializedSubsetOf(cs), rest2)),
            },
        }
    } else {
        None
    }
}

/// Reads one arrow.
pub open spec fn parse_arrow(s: Seq<char>) -> Option<(ArrowView, Seq<char>)> {
    match parse_atom(s) {
        None => None,
        Some((a, rest)) => match parse_str(rest) {
            None => None,
            Some((src, rest2)) => match parse_str(rest2) {
                None => None,
                Some((tgt, rest3)) => Some(
                    (ArrowView { data: a, source: src, target: tgt }, rest3),
                ),
            },
        },
    }
}

/// Reads `count` arrows, one after the other.
pub open spec fn parse_arrows(s: Seq<char>, count: nat) -> Option<(Seq<ArrowView>, Seq<char>)>
    decreases count,
{
    if count == 0 {
        Some((Seq::empty(), s))
    } else {
        match parse_arrow(s) {
            None => None,
            Some((a, rest)) => match parse_arrows(rest, (count - 1) as nat) {
                None => None,
                Some((arrows, rest2)) => Some((seq![a] + arrows, rest2)),
            },
        }
    }
}

/// The graph a serialized form denotes: its labels and arrows are read back,
/// the whole input must be consumed, the labels must be distinct, and every
/// arrow must be grounded; the adjacency bookkeeping is the one the arrow
/// log determines.
pub open spec fn spec_decode(s: Seq<char>) -> Option<OntologyView> {
    match parse_num(s) {
        None => None,
        Some((nl, rest)) => match parse_strs(rest, nl) {
            None => None,
            Some((labels, rest2)) => match parse_num(rest2) {
                None => None,
                Some((na, rest3)) => match parse_arrows(rest3, na) {
                    None => None,
                    Some((arrows, rest4)) => if rest4.len() == 0 && distinct_labels(labels)
                        && arrows_grounded(labels, arrows) {
                        Some(graph_of(labels, arrows))
                    } else {
                        None
                    },
                },
            },
        },
    }
}

/// Every string a view holds fits the machine's length limits.
pub open spec fn str_ok(s: Seq<char>) -> bool {
    s.len() <= usize::MAX
}

pub open spec fn constraint_ok(c: ConstraintView) -> bool {
    &&& str_ok(c.parameter)
    &&& c.values.len() <= usize::MAX
    &&& forall|i: int| 0 <= i < c.values.len() ==> str_ok(#[trigger] c.values[i])
}

pub open spec fn atom_ok(a: AtomView) -> bool {
    match a {
        AtomView::IsSpecializedSubsetOf(cs) => cs.len() <= usize::MAX && forall|i: int|
            0 <= i < cs.len() ==> constraint_ok(#[trigger] cs[i]),
        _ => true,
    }
}

pub open spec fn arrow_ok(a: ArrowView) -> bool {
    &&& atom_ok(a.data)
    &&& str_ok(a.source)
    &&& str_ok(a.target)
}

/// Every length a view holds fits in a machine word, as it does for every
/// graph actually built.
pub open spec fn view_ok(v: OntologyView) -> bool {
    &&& v.labels.len() <= usize::MAX
    &&& forall|i: int| 0 <= i < v.labels.len() ==> str_ok(#[trigger] v.labels[i])
    &&& v.arrows.len() <= usize::MAX
    &&& forall|i: int| 0 <= i < v.arrows.len() ==> arrow_ok(#[trigger] v.arrows[i])
}

proof fn lemma_digits_shape(n: nat)
    ensures
        digits(n).len() >= 1,
        is_digit_char(digits(n)[0]),
        !is_digit_char(';'),
    decreases n,
{
}

/// A number written by the encoder reads back exactly.
proof fn lemma_parse_num_round(n: nat, rest: Seq<char>)
    requires
        n <= usize::MAX,
    ensures
        parse_num(enc_num(n) + rest) == Some((n, rest)),
    decreases n,
{
    let s = enc_num(n) + rest;
    lemma_digits_shape(n);
    if n < 10 {
        assert(s[0] == digit_char(n));
        assert(s[1] == ';');
        assert(digit_val(digit_char(n)) == n);
        assert(s.skip(2) =~= rest);
    } else {
        assert(n / 10 < n) by (nonlinear_arith)
            requires
                n >= 10,
        ;
        assert(n / 10 <= usize::MAX);
        lemma_digits_shape(n / 10);
        assert(s[0] == digit_char(n % 10));
        assert(s[1] == digits(n / 10)[0]);
        assert(is_digit_char(s[1]));
        lemma_parse_num_round(n / 10, rest);
        assert(s.drop_first() =~= enc_num(n / 10) + rest);
        assert(digit_val(digit_char(n % 10)) == n % 10);
        assert(n % 10 + 10 * (n / 10) == n) by (nonlinear_arith);
    }
}

/// A string written by the encoder reads back exactly.
proof fn lemma_parse_str_round(x: Seq<char>, rest: Seq<char>)
    requires
        str_ok(x),
    ensures
        parse_str(enc_str(x) + rest) == Some((x, rest)),
{
    let s = enc_str(x) + rest;
    assert(s =~= enc_num(x.len()) + (x + rest));
    lemma_parse_num_round(x.len(), x + rest);
    assert((x + rest).take(x.len() as int) =~= x);
    assert((x + rest).skip(x.len() as int) =~= rest);
}

/// A string list written by the encoder reads back exactly.
proof fn lemma_parse_strs_round(xs: Seq<Seq<char>>, rest: Seq<char>)
    requires
        forall|i: int| 0 <= i < xs.len() ==> str_ok(#[trigger] xs[i]),
    ensures
        parse_strs(enc_strs(xs) + rest, xs.len()) == Some((xs, rest)),
    decreases xs.len(),
{
    if xs.len() == 0 {
        assert(enc_strs(xs) + rest =~= rest);
    } else {
        let s = enc_strs(xs) + rest;
        assert(s =~= enc_str(xs.first()) + (enc_strs(xs.drop_first()) + rest));
        lemma_parse_str_round(xs.first(), enc_strs(xs.drop_first()) + rest);
        assert forall|i: int| 0 <= i < xs.drop_first().len() implies str_ok(
            #[trigger] xs.drop_first()[i],
        ) by {
            assert(xs.drop_first()[i] == xs[i + 1]);
        }
        lemma_parse_strs_round(xs.drop_first(), rest);
        assert(seq![xs.first()] + xs.drop_first() =~= xs);
    }
}

/// A constraint written by the encoder reads back exactly.
proof fn lemma_parse_constraint_round(c: ConstraintView, rest: Seq<char>)
    requires
        constraint_ok(c),
    ensures
        parse_constraint(enc_constraint(c) + rest) == Some((c, rest)),
{
    let s = enc_constraint(c) + rest;
    assert(s =~= enc_str(c.parameter) + (enc_num(c.values.len()) + (enc_strs(c.values) + rest)));
    lemma_parse_str_round(c.parameter, enc_num(c.values.len()) + (enc_strs(c.values) + rest));
    lemma_parse_num_round(c.values.len(), enc_strs(c.values) + rest);
    lemma_parse_strs_round(c.values, rest);
}

/// A constraint list written by the encoder reads back exactly.
proof fn lemma_parse_constraints_round(cs: Seq<ConstraintView>, rest: Seq<char>)
    requires
        forall|i: int| 0 <= i < cs.len() ==> constraint_ok(#[trigger] cs[i]),
    ensures
        parse_constraints(enc_constraints(cs) + rest, cs.len()) == Some((cs, rest)),
    decreases cs.len(),
{
    if cs.len() == 0 {
        assert(enc_constraints(cs) + rest =~= rest);
    } else {
        let s = enc_constraints(cs) + rest;
        assert(s =~= enc_constraint(cs.first()) + (enc_constraints(cs.drop_first()) + rest));
        lemma_parse_constraint_round(cs.first(), enc_constraints(cs.drop_first()) + rest);
        assert forall|i: int| 0 <= i < cs.drop_first().len() implies constraint_ok(
            #[trigger] cs.drop_first()[i],
        ) by {
            assert(cs.drop_first()[i] == cs[i + 1]);
        }
        lemma_parse_constraints_round(cs.drop_first(), rest);
        assert(seq![cs.first()] + cs.drop_first() =~= cs);
    }
}

/// A relation value written by the encoder reads back exactly.
proof fn lemma_parse_atom_round(a: AtomView, rest: Seq<char>)
    requires
        atom_ok(a),
    ensures
        parse_atom(enc_atom(a) + rest) == Some((a, rest)),
{
    let s = enc_atom(a) + rest;
    match a {
        AtomView::IsHyponymOf => {
            assert(s[0] == 'h');
            assert(s.drop_first() =~= rest);
        },
        AtomView::IsMeronymOf => {
            assert(s[0] == 'm');
            assert(s.drop_first() =~= rest);
        },
        AtomView::IsTokenOf => {
            assert(s[0] == 't');
            assert(s.drop_first() =~= rest);
        },
        AtomView::IsSpecializedSubsetOf(cs) => {
            assert(s[0] == 's');
            assert(s.drop_first() =~= enc_num(cs.len()) + (enc_constraints(cs) + rest));
            lemma_parse_num_round(cs.len(), enc_constraints(cs) + rest);
            lemma_parse_constraints_round(cs, rest);
        },
    }
}

/// An arrow written by the encoder reads back exactly.
proof fn lemma_parse_arrow_round(a: ArrowView, rest: Seq<char>)
    requires
        arrow_ok(a),
    ensures
        parse_arrow(enc_arrow(a) + rest) == Some((a, rest)),
{
    let s = enc_arrow(a) + rest;
    assert(s =~= enc_atom(a.data) + (enc_str(a.source) + (enc_str(a.target) + rest)));
    lemma_parse_atom_round(a.data, enc_str(a.source) + (enc_str(a.target) + rest));
    lemma_parse_str_round(a.source, enc_str(a.target) + rest);
    lemma_parse_str_round(a.target, rest);
}

/// An arrow list written by the encoder reads back exactly.
proof fn lemma_parse_arrows_round(arrows: Seq<ArrowView>, rest: Seq<char>)
    requires
        forall|i: int| 0 <= i < arrows.len() ==> arrow_ok(#[trigger] arrows[i]),
    ensures
        parse_arrows(enc_arrows(arrows) + rest, arrows.len()) == Some((arrows, rest)),
    decreases arrows.len(),
{
    if arrows.len() == 0 {
        assert(enc_arrows(arrows) + rest =~= rest);
    } else {
        let s = enc_arrows(arrows) + rest;
        assert(s =~= enc_arrow(arrows.first()) + (enc_arrows(arrows.drop_first()) + rest));
        lemma_parse_arrow_round(arrows.first(), enc_arrows(arrows.drop_first()) + rest);
        assert forall|i: int| 0 <= i < arrows.drop_first().len() implies arrow_ok(
            #[trigger] arrows.drop_first()[i],
        ) by {
            assert(arrows.drop_first()[i] == arrows[i + 1]);
        }
        lemma_parse_arrows_round(arrows.drop_first(), rest);
        assert(seq![arrows.first()] + arrows.drop_first() =~= arrows);
    }
}

/// Round-trip persistence: decoding what the encoder wrote for any graph
/// that satisfies the invariant yields that graph back — the same label
/// order, the same arrow log, and the same partition of arrow positions into
/// each vertex's index lists.
pub proof fn lemma_codec_round_trip(v: OntologyView)
    requires
        inv(v),
        view_ok(v),
    ensures
        spec_decode(spec_encode(v)) == Some(v),
{
    let s = spec_encode(v);
    let tail1 = enc_strs(v.labels) + (enc_num(v.arrows.len()) + (enc_arrows(v.arrows)
        + Seq::empty()));
    assert(s =~= enc_num(v.labels.len()) + tail1);
    lemma_parse_num_round(v.labels.len(), tail1);
    lemma_parse_strs_round(
        v.labels,
        enc_num(v.arrows.len()) + (enc_arrows(v.arrows) + Seq::empty()),
    );
    assert(tail1 =~= enc_strs(v.labels) + (enc_num(v.arrows.len()) + (enc_arrows(v.arrows)
        + Seq::empty())));
    lemma_parse_num_round(v.arrows.len(), enc_arrows(v.arrows) + Seq::empty());
    lemma_parse_arrows_round(v.arrows, Seq::empty());
    lemma_inv_graph(v);
}

proof fn lemma_enc_strs_push(xs: Seq<Seq<char>>, x: Seq<char>)
    ensures
        enc_strs(xs.push(x)) == enc_strs(xs) + enc_str(x),
    decreases xs.len(),
{
    if xs.len() == 0 {
        assert(xs.push(x).first() == x);
        assert(xs.push(x).drop_first() =~= Seq::<Seq<char>>::empty());
        assert(enc_strs(Seq::<Seq<char>>::empty()) == Seq::<char>::empty());
        assert(enc_strs(xs.push(x)) =~= enc_strs(xs) + enc_str(x));
    } else {
        assert(xs.push(x).first() == xs.first());
        assert(xs.push(x).drop_first() =~= xs.drop_first().push(x));
        lemma_enc_strs_push(xs.drop_first(), x);
        assert(enc_strs(xs.push(x)) =~= enc_strs(xs) + enc_str(x));
    }
}

proof fn lemma_enc_constraints_push(cs: Seq<ConstraintView>, c: ConstraintView)
    ensures
        enc_constraints(cs.push(c)) == enc_constraints(cs) + enc_constraint(c),
    decreases cs.len(),
{
    if cs.len() == 0 {
        assert(cs.push(c).first() == c);
        assert(cs.push(c).drop_first() =~= Seq::<ConstraintView>::empty());
        assert(enc_constraints(Seq::<ConstraintView>::empty()) == Seq::<char>::empty());
        assert(enc_constraints(cs.push(c)) =~= enc_constraints(cs) + enc_constraint(c));
    } else {
        assert(cs.push(c).first() == cs.first());
        assert(cs.push(c).drop_first() =~= cs.drop_first().push(c));
        lemma_enc_constraints_push(cs.drop_first(), c);
        assert(enc_constraints(cs.push(c)) =~= enc_constraints(cs) + enc_constraint(c));
    }
}

proof fn lemma_enc_arrows_push(arrows: Seq<ArrowView>, a: ArrowView)
    ensures
        enc_arrows(arrows.push(a)) == enc_arrows(arrows) + enc_arrow(a),
    decreases arrows.len(),
{
    if arrows.len() == 0 {
        assert(arrows.push(a).first() == a);
        assert(arrows.push(a).drop_first() =~= Seq::<ArrowView>::empty());
        assert(enc_arrows(Seq::<ArrowView>::empty()) == Seq::<char>::empty());
        assert(enc_arrows(arrows.push(a)) =~= enc_arrows(arrows) + enc_arrow(a));
    } else {
        assert(arrows.push(a).first() == arrows.first());
        assert(arrows.push(a).drop_first() =~= arrows.drop_first().push(a));
        lemma_enc_arrows_push(arrows.drop_first(), a);
        assert(enc_arrows(arrows.push(a)) =~= enc_arrows(arrows) + enc_arrow(a));
    }
}

fn digit_str(d: usize) -> (r: &'static str)
    requires
        d < 10,
    ensures
        r@ == seq![digit_char(d as nat)],
{
    match d {
        0 => {
            proof {
                reveal_strlit("0");
                assert("0"@ =~= seq![digit_char(0)]);
            }
            "0"
        },
        1 => {
            proof {
                reveal_strlit("1");
                assert("1"@ =~= seq![digit_char(1)]);
            }
            "1"
        },
        2 => {
            proof {
                reveal_strlit("2");
                assert("2"@ =~= seq![digit_char(2)]);
            }
            "2"
        },
        3 => {
            proof {
                reveal_strlit("3");
                assert("3"@ =~= seq![digit_char(3)]);
            }
            "3"
        },
        4 => {
            proof {
                reveal_strlit("4");
                assert("4"@ =~= seq![digit_char(4)]);
            }
            "4"
        },
        5 => {
            proof {
                reveal_strlit("5");
                assert("5"@ =~= seq![digit_char(5)]);
            }
            "5"
        },
        6 => {
            proof {
                reveal_strlit("6");
                assert("6"@ =~= seq![digit_char(6)]);
            }
            "6"
        },
        7 => {
            proof {
                reveal_strlit("7");
                assert("7"@ =~= seq![digit_char(7)]);
            }
            "7"
        },
        8 => {
            proof {
                reveal_strlit("8");
                assert("8"@ =~= seq![digit_char(8)]);
            }
            "8"
        },
        _ => {
            proof {
                reveal_strlit("9");
                assert("9"@ =~= seq![digit_char(9)]);
            }
            "9"
        },
    }
}

/// Appends a number in its textual form.
fn push_num(out: &mut String, n: usize)
    ensures
        final(out)@ == old(out)@ + enc_num(n as nat),
{
    let ghost n0 = n as nat;
    let mut cur: usize = n;
    let d0: usize = cur % 10;
    cur = cur / 10;
    out.append(digit_str(d0));
    let ghost mut emitted: Seq<char> = seq![digit_char(d0 as nat)];
    proof {
        if n0 < 10 {
            assert(digits(n0) =~= emitted);
        } else {
            assert(digits(n0) =~= emitted + digits(cur as nat));
        }
        assert(out@ =~= old(out)@ + emitted);
    }
    while cur > 0
        invariant
            out@ == old(out)@ + emitted,
            cur > 0 ==> digits(n0) == emitted + digits(cur as nat),
            cur == 0 ==> digits(n0) == emitted,
        decreases cur,
    {
        let d: usize = cur % 10;
        let ghost cur0 = cur as nat;
        cur = cur / 10;
        out.append(digit_str(d));
        proof {
            emitted = emitted + seq![digit_char(d as nat)];
            if cur0 < 10 {
                assert(digits(cur0) =~= seq![digit_char(d as nat)]);
                assert(digits(n0) =~= emitted);
            } else {
                assert(digits(cur0) =~= seq![digit_char(d as nat)] + digits(cur as nat));
                assert(digits(n0) =~= emitted + digits(cur as nat));
            }
            assert(out@ =~= old(out)@ + emitted);
        }
    }
    out.append(";");
    proof {
        reveal_strlit(";");
        assert(";"@ =~= seq![';']);
        assert(out@ =~= old(out)@ + enc_num(n0));
    }
}

/// Appends a string in its length-prefixed form.
fn push_chunk(out: &mut String, s: &str)
    ensures
        final(out)@ == old(out)@ + enc_str(s@),
{
    let len = s.unicode_len();
    push_num(out, len);
    out.append(s);
    proof {
        assert(out@ =~= old(out)@ + enc_str(s@));
    }
}

/// Appends one constraint.
fn push_constraint(out: &mut String, c: &Constraint)
    ensures
        final(out)@ == old(out)@ + enc_constraint(c@),
{
    let ghost vv = c.values@.map_values(|s: String| s@);
    push_chunk(out, c.parameter.as_str());
    push_num(out, c.values.len());
    let ghost base = out@;
    proof {
        assert(out@ =~= base + enc_strs(vv.take(0)));
    }
    let mut i: usize = 0;
    while i < c.values.len()
        invariant
            i <= c.values@.len(),
            vv == c.values@.map_values(|s: String| s@),
            base == old(out)@ + enc_str(c@.parameter) + enc_num(vv.len()),
            out@ == base + enc_strs(vv.take(i as int)),
        decreases c.values@.len() - i,
    {
        push_chunk(out, c.values[i].as_str());
        i = i + 1;
        proof {
            assert(vv.take(i as int) =~= vv.take(i as int - 1).push(vv[i as int - 1]));
            lemma_enc_strs_push(vv.take(i as int - 1), vv[i as int - 1]);
            assert(out@ =~= base + enc_strs(vv.take(i as int)));
        }
    }
    proof {
        assert(vv.take(c.values@.len() as int) =~= vv);
        assert(out@ =~= old(out)@ + enc_constraint(c@));
    }
}

/// Appends one relation value.
fn push_atom(out: &mut String, a: &Atom)
    ensures
        final(out)@ == old(out)@ + enc_atom(a@),
{
    match a {
        Atom::IsHyponymOf => {
            out.append("h");
            proof {
                reveal_strlit("h");
                assert(out@ =~= old(out)@ + enc_atom(a@));
            }
        },
        Atom::IsMeronymOf => {
            out.append("m");
            proof {
                reveal_strlit("m");
                assert(out@ =~= old(out)@ + enc_atom(a@));
            }
        },
        Atom::IsTokenOf => {
            out.append("t");
            proof {
                reveal_strlit("t");
                assert(out@ =~= old(out)@ + enc_atom(a@));
            }
        },
        Atom::IsSpecializedSubsetOf(cs) => {
            let ghost cv = cs@.map_values(|c: Constraint| c@);
            out.append("s");
            proof {
                reveal_strlit("s");
            }
            push_num(out, cs.len());
            let ghost base = out@;
            proof {
                assert(out@ =~= base + enc_constraints(cv.take(0)));
            }
            let mut i: usize = 0;
            while i < cs.len()
                invariant
                    i <= cs@.len(),
                    cv == cs@.map_values(|c: Constraint| c@),
                    base == old(out)@ + seq!['s'] + enc_num(cv.len()),
                    out@ == base + enc_constraints(cv.take(i as int)),
                decreases cs@.len() - i,
            {
                push_constraint(out, &cs[i]);
                i = i + 1;
                proof {
                    assert(cv.take(i as int) =~= cv.take(i as int - 1).push(cv[i as int - 1]));
                    lemma_enc_constraints_push(cv.take(i as int - 1), cv[i as int - 1]);
                    assert(out@ =~= base + enc_constraints(cv.take(i as int)));
                }
            }
            proof {
                assert(cv.take(cs@.len() as int) =~= cv);
                assert(out@ =~= old(out)@ + enc_atom(a@));
            }
        },
    }
}

/// Appends one arrow.
fn push_arrow(out: &mut String, a: &Arrow)
    ensures
        final(out)@ == old(out)@ + enc_arrow(a@),
{
    push_atom(out, a.data());
    push_chunk(out, a.source_index());
    push_chunk(out, a.target_index());
    proof {
        assert(out@ =~= old(out)@ + enc_arrow(a@));
    }
}

impl Ontology {
    /// Writes this graph in its deterministic textual form: the labels in
    /// insertion order, then the arrow log. Everything else the graph holds
    /// is determined by these and is reproduced on reading.
    pub fn serialize(&self) -> (r: String)
        ensures
            r@ == spec_encode(self@),
    {
        let labels = self.label_list();
        let arrows = self.arrow_log();
        let ghost lv = labels@.map_values(|s: String| s@);
        let ghost av = arrows@.map_values(|a: Arrow| a@);
        let mut out = String::new();
        push_num(&mut out, labels.len());
        let ghost base1 = out@;
        proof {
            assert(out@ =~= base1 + enc_strs(lv.take(0)));
        }
        let mut i: usize = 0;
        while i < labels.len()
            invariant
                i <= labels@.len(),
                lv == labels@.map_values(|s: String| s@),
                base1 == enc_num(lv.len()),
                out@ == base1 + enc_strs(lv.take(i as int)),
            decreases labels@.len() - i,
        {
            push_chunk(&mut out, labels[i].as_str());
            i = i + 1;
            proof {
                assert(lv.take(i as int) =~= lv.take(i as int - 1).push(lv[i as int - 1]));
                lemma_enc_strs_push(lv.take(i as int - 1), lv[i as int - 1]);
                assert(out@ =~= base1 + enc_strs(lv.take(i as int)));
            }
        }
        proof {
            assert(lv.take(labels@.len() as int) =~= lv);
        }
        push_num(&mut out, arrows.len());
        let ghost base2 = out@;
        proof {
            assert(out@ =~= base2 + enc_arrows(av.take(0)));
        }
        let mut k: usize = 0;
        while k < arrows.len()
            invariant
                k <= arrows@.len(),
                av == arrows@.map_values(|a: Arrow| a@),
                base2 == enc_num(lv.len()) + enc_strs(lv) + enc_num(av.len()),
                out@ == base2 + enc_arrows(av.take(k as int)),
            decreases arrows@.len() - k,
        {
            push_arrow(&mut out, &arrows[k]);
            k = k + 1;
            proof {
                assert(av.take(k as int) =~= av.take(k as int - 1).push(av[k as int - 1]));
                lemma_enc_arrows_push(av.take(k as int - 1), av[k as int - 1]);
                assert(out@ =~= base2 + enc_arrows(av.take(k as int)));
            }
        }
        proof {
            assert(av.take(arrows@.len() as int) =~= av);
            assert(out@ =~= spec_encode(self@));
        }
        out
    }
}


spec fn list_cont<T>(acc: Seq<T>, r: Option<(Seq<T>, Seq<char>)>) -> Option<(Seq<T>, Seq<char>)> {
    match r {
        None => None,
        Some((ys, rest)) => Some((acc + ys, rest)),
    }
}

fn digit_of(c: char) -> (r: Option<usize>)
    ensures
        match r {
            Some(d) => is_digit_char(c) && d < 10 && d as nat == digit_val(c),
            None => !is_digit_char(c),
        },
{
    match c {
        '0' => Some(0),
        '1' => Some(1),
        '2' => Some(2),
        '3' => Some(3),
        '4' => Some(4),
        '5' => Some(5),
        '6' => Some(6),
        '7' => Some(7),
        '8' => Some(8),
        '9' => Some(9),
        _ => None,
    }
}

/// Reads one number starting at `pos`.
fn parse_num_exec(s: &str, pos: usize) -> (r: Option<(usize, usize)>)
    requires
        pos <= s@.len(),
    ensures
        match r {
            Some((v, p)) => pos <= p <= s@.len() && parse_num(s@.skip(pos as int)) == Some(
                (v as nat, s@.skip(p as int)),
            ),
            None => parse_num(s@.skip(pos as int)) is None,
        },
    decreases s@.len() - pos,
{
    let ghost t = s@.skip(pos as int);
    let n = s.unicode_len();
    if n - pos < 2 {
        return None;
    }
    let c0 = s.get_char(pos);
    proof {
        assert(t[0] == s@[pos as int]);
        assert(t[1] == s@[pos as int + 1]);
    }
    let d = match digit_of(c0) {
        Some(d) => d,
        None => {
            return None;
        },
    };
    let c1 = s.get_char(pos + 1);
    match digit_of(c1) {
        Some(_) => {
            proof {
                assert(t.drop_first() =~= s@.skip(pos as int + 1));
            }
            match parse_num_exec(s, pos + 1) {
                None => None,
                Some((m, p)) => {
                    match m.checked_mul(10) {
                        None => {
                            proof {
                                assert(digit_val(t[0]) + 10 * (m as nat) > usize::MAX);
                            }
                            None
                        },
                        Some(t10) => {
                            match t10.checked_add(d) {
                                None => {
                                    proof {
                                        assert(digit_val(t[0]) + 10 * (m as nat) > usize::MAX);
                                    }
                                    None
                                },
                                Some(v) => Some((v, p)),
                            }
                        },
                    }
                },
            }
        },
        None => {
            if c1 == ';' {
                proof {
                    assert(t.skip(2) =~= s@.skip(pos as int + 2));
                }
                Some((d, pos + 2))
            } else {
                None
            }
        },
    }
}

/// Reads one length-prefixed string starting at `pos`.
fn parse_str_exec(s: &str, pos: usize) -> (r: Option<(String, usize)>)
    requires
        pos <= s@.len(),
    ensures
        match r {
            Some((x, p)) => pos <= p <= s@.len() && parse_str(s@.skip(pos as int)) == Some(
                (x@, s@.skip(p as int)),
            ),
            None => parse_str(s@.skip(pos as int)) is None,
        },
{
    let n = s.unicode_len();
    match parse_num_exec(s, pos) {
        None => None,
        Some((len, p)) => {
            if len <= n - p {
                let sub = s.substring_char(p, p + len);
                let x = <String as StringExecFns>::from_str(sub);
                proof {
                    assert(s@.skip(p as int).take(len as int) =~= s@.subrange(
                        p as int,
                        p as int + len as int,
                    ));
                    assert(s@.skip(p as int).skip(len as int) =~= s@.skip(p as int + len as int));
                }
                Some((x, p + len))
            } else {
                None
            }
        },
    }
}

/// Reads `count` length-prefixed strings starting at `pos`.
fn parse_strs_exec(s: &str, pos: usize, count: usize) -> (r: Option<(Vec<String>, usize)>)
    requires
        pos <= s@.len(),
    ensures
        match r {
            Some((xs, p)) => pos <= p <= s@.len() && parse_strs(s@.skip(pos as int), count as nat)
                == Some((xs@.map_values(|x: String| x@), s@.skip(p as int))),
            None => parse_strs(s@.skip(pos as int), count as nat) is None,
        },
{
    let mut xs: Vec<String> = Vec::new();
    let mut p = pos;
    let mut i: usize = 0;
    proof {
        assert(xs@.map_values(|x: String| x@) =~= Seq::<Seq<char>>::empty());
    }
    while i < count
        invariant
            i <= count,
            pos <= p <= s@.len(),
            parse_strs(s@.skip(pos as int), count as nat) == list_cont(
                xs@.map_values(|x: String| x@),
                parse_strs(s@.skip(p as int), (count - i) as nat),
            ),
        decreases count - i,
    {
        let ghost acc0 = xs@.map_values(|x: String| x@);
        match parse_str_exec(s, p) {
            None => {
                return None;
            },
            Some((x, p2)) => {
                proof {
                    let res = parse_strs(s@.skip(p2 as int), (count - i - 1) as nat);
                    if res is Some {
                        let (ys, r2) = res->Some_0;
                        assert(acc0 + (seq![x@] + ys) =~= acc0.push(x@) + ys);
                    }
                }
                xs.push(x);
                proof {
                    assert(xs@.map_values(|y: String| y@) =~= acc0.push(x@));
                }
                p = p2;
                i = i + 1;
            },
        }
    }
    proof {
        let acc = xs@.map_values(|x: String| x@);
        assert(acc + Seq::<Seq<char>>::empty() =~= acc);
    }
    Some((xs, p))
}

/// Reads one constraint starting at `pos`.
fn parse_constraint_exec(s: &str, pos: usize) -> (r: Option<(Constraint, usize)>)
    requires
        pos <= s@.len(),
    ensures
        match r {
            Some((c, p)) => pos <= p <= s@.len() && parse_constraint(s@.skip(pos as int)) == Some(
                (c@, s@.skip(p as int)),
            ),
            None => parse_constraint(s@.skip(pos as int)) is None,
        },
{
    match parse_str_exec(s, pos) {
        None => None,
        Some((param, p)) => {
            match parse_num_exec(s, p) {
                None => None,
                Some((n, p2)) => {
                    match parse_strs_exec(s, p2, n) {
                        None => None,
                        Some((vals, p3)) => Some((Constraint { parameter: param, values: vals }, p3)),
                    }
                },
            }
        },
    }
}

/// Reads `count` constraints starting at `pos`.
fn parse_constraints_exec(s: &str, pos: usize, count: usize) -> (r: Option<(Vec<Constraint>, usize)>)
    requires
        pos <= s@.len(),
    ensures
        match r {
            Some((cs, p)) => pos <= p <= s@.len() && parse_constraints(
                s@.skip(pos as int),
                count as nat,
            ) == Some((cs@.map_values(|c: Constraint| c@), s@.skip(p as int))),
            None => parse_constraints(s@.skip(pos as int), count as nat) is None,
        },
{
    let mut cs: Vec<Constraint> = Vec::new();
    let mut p = pos;
    let mut i: usize = 0;
    proof {
        assert(cs@.map_values(|c: Constraint| c@) =~= Seq::<ConstraintView>::empty());
    }
    while i < count
        invariant
            i <= count,
            pos <= p <= s@.len(),
            parse_constraints(s@.skip(pos as int), count as nat) == list_cont(
                cs@.map_values(|c: Constraint| c@),
                parse_constraints(s@.skip(p as int), (count - i) as nat),
            ),
        decreases count - i,
    {
        let ghost acc0 = cs@.map_values(|c: Constraint| c@);
        match parse_constraint_exec(s, p) {
            None => {
                return None;
            },
            Some((c, p2)) => {
                proof {
                    let res = parse_constraints(s@.skip(p2 as int), (count - i - 1) as nat);
                    if res is Some {
                        let (ys, r2) = res->Some_0;
                        assert(acc0 + (seq![c@] + ys) =~= acc0.push(c@) + ys);
                    }
                }
                cs.push(c);
                proof {
                    assert(cs@.map_values(|y: Constraint| y@) =~= acc0.push(c@));
                }
                p = p2;
                i = i + 1;
            },
        }
    }
    proof {
        let acc = cs@.map_values(|c: Constraint| c@);
        assert(acc + Seq::<ConstraintView>::empty() =~= acc);
    }
    Some((cs, p))
}

/// Reads one relation value starting at `pos`.
fn parse_atom_exec(s: &str, pos: usize) -> (r: Option<(Atom, usize)>)
    requires
        pos <= s@.len(),
    ensures
        match r {
            Some((a, p)) => pos <= p <= s@.len() && parse_atom(s@.skip(pos as int)) == Some(
                (a@, s@.skip(p as int)),
            ),
            None => parse_atom(s@.skip(pos as int)) is None,
        },
{
    let ghost t = s@.skip(pos as int);
    let n = s.unicode_len();
    if pos == n {
        return None;
    }
    let c = s.get_char(pos);
    proof {
        assert(t[0] == s@[pos as int]);
        assert(t.drop_first() =~= s@.skip(pos as int + 1));
    }
    if c == 'h' {
        Some((Atom::IsHyponymOf, pos + 1))
    } else if c == 'm' {
        Some((Atom::IsMeronymOf, pos + 1))
    } else if c == 't' {
        Some((Atom::IsTokenOf, pos + 1))
    } else if c == 's' {
        match parse_num_exec(s, pos + 1) {
            None => None,
            Some((count, p)) => {
                match parse_constraints_exec(s, p, count) {
                    None => None,
                    Some((cs, p2)) => Some((Atom::IsSpecializedSubsetOf(cs), p2)),
                }
            },
        }
    } else {
        None
    }
}

/// Reads one arrow starting at `pos`: its relation value, source label and
/// target label.
fn parse_arrow_exec(s: &str, pos: usize) -> (r: Option<((Atom, String, String), usize)>)
    requires
        pos <= s@.len(),
    ensures
        match r {
            Some((a, p)) => pos <= p <= s@.len() && parse_arrow(s@.skip(pos as int)) == Some(
                ((ArrowView { data: a.0@, source: a.1@, target: a.2@ }), s@.skip(p as int)),
            ),
            None => parse_arrow(s@.skip(pos as int)) is None,
        },
{
    match parse_atom_exec(s, pos) {
        None => None,
        Some((atom, p)) => {
            match parse_str_exec(s, p) {
                None => None,
                Some((src, p2)) => {
                    match parse_str_exec(s, p2) {
                        None => None,
                        Some((tgt, p3)) => Some(((atom, src, tgt), p3)),
                    }
                },
            }
        },
    }
}

/// Reads `count` arrows starting at `pos`.
fn parse_arrows_exec(s: &str, pos: usize, count: usize) -> (r: Option<
    (Vec<(Atom, String, String)>, usize),
>)
    requires
        pos <= s@.len(),
    ensures
        match r {
            Some((arrows, p)) => pos <= p <= s@.len() && parse_arrows(
                s@.skip(pos as int),
                count as nat,
            ) == Some(
                (
                    arrows@.map_values(
                        |a: (Atom, String, String)| (ArrowView {
                            data: a.0@,
                            source: a.1@,
                            target: a.2@,
                        }),
                    ),
                    s@.skip(p as int),
                ),
            ),
            None => parse_arrows(s@.skip(pos as int), count as nat) is None,
        },
{
    let mut arrows: Vec<(Atom, String, String)> = Vec::new();
    let mut p = pos;
    let mut i: usize = 0;
    let ghost f = |a: (Atom, String, String)| (ArrowView {
        data: a.0@,
        source: a.1@,
        target: a.2@,
    });
    proof {
        assert(arrows@.map_values(f) =~= Seq::<ArrowView>::empty());
    }
    while i < count
        invariant
            i <= count,
            pos <= p <= s@.len(),
            f == (|a: (Atom, String, String)| (ArrowView {
                data: a.0@,
                source: a.1@,
                target: a.2@,
            })),
            parse_arrows(s@.skip(pos as int), count as nat) == list_cont(
                arrows@.map_values(f),
                parse_arrows(s@.skip(p as int), (count - i) as nat),
            ),
        decreases count - i,
    {
        let ghost acc0 = arrows@.map_values(f);
        match parse_arrow_exec(s, p) {
            None => {
                return None;
            },
            Some((a, p2)) => {
                let ghost aw = ArrowView { data: a.0@, source: a.1@, target: a.2@ };
                proof {
                    let res = parse_arrows(s@.skip(p2 as int), (count - i - 1) as nat);
                    if res is Some {
                        let (ys, r2) = res->Some_0;
                        assert(acc0 + (seq![aw] + ys) =~= acc0.push(aw) + ys);
                    }
                }
                arrows.push(a);
                proof {
                    assert(arrows@.map_values(f) =~= acc0.push(aw));
                }
                p = p2;
                i = i + 1;
            },
        }
    }
    proof {
        let acc = arrows@.map_values(f);
        assert(acc + Seq::<ArrowView>::empty() =~= acc);
    }
    Some((arrows, p))
}

impl Ontology {
    /// Reads a graph back from its textual form: the labels, then the
    /// arrows, replayed through the mutation operations so that the
    /// adjacency bookkeeping is reproduced exactly. Fails on any input the
    /// encoder cannot have written for a valid graph.
    pub fn deserialize(s: &str) -> (r: Option<Ontology>)
        ensures
            match r {
                Some(g) => g.wf() && spec_decode(s@) == Some(g@),
                None => spec_decode(s@) is None,
            },
    {
        proof {
            assert(s@.skip(0) =~= s@);
        }
        let (nl, p1) = match parse_num_exec(s, 0) {
            None => {
                return None;
            },
            Some(x) => x,
        };
        let (labels, p2) = match parse_strs_exec(s, p1, nl) {
            None => {
                return None;
            },
            Some(x) => x,
        };
        let (na, p3) = match parse_num_exec(s, p2) {
            None => {
                return None;
            },
            Some(x) => x,
        };
        let (arrows, p4) = match parse_arrows_exec(s, p3, na) {
            None => {
                return None;
            },
            Some(x) => x,
        };
        let n = s.unicode_len();
        if p4 < n {
            proof {
                assert(s@.skip(p4 as int).len() > 0);
            }
            return None;
        }
        let ghost lv = labels@.map_values(|x: String| x@);
        let ghost av = arrows@.map_values(
            |a: (Atom, String, String)| (ArrowView { data: a.0@, source: a.1@, target: a.2@ }),
        );
        proof {
            assert(s@.skip(p4 as int).len() == 0);
            assert(spec_decode(s@) == (if distinct_labels(lv) && arrows_grounded(lv, av) {
                Some(graph_of(lv, av))
            } else {
                None
            }));
        }
        let mut g = Ontology::new();
        proof {
            assert(g@.labels =~= lv.take(0));
            assert(g@ =~= graph_of(lv.take(0), Seq::empty()));
        }
        let mut i: usize = 0;
        #[verifier::loop_isolation(false)]
        while i < labels.len()
            invariant
                g.wf(),
                i <= labels@.len(),
                g@ == graph_of(lv.take(i as int), Seq::empty()),
                distinct_labels(lv.take(i as int)),
            decreases labels@.len() - i,
        {
            if g.has_vertex(&labels[i]) {
                proof {
                    let j = choose|j: int|
                        0 <= j < i && lv.take(i as int)[j] == lv[i as int];
                    assert(lv[j] == lv[i as int]);
                    assert(!distinct_labels(lv));
                }
                return None;
            }
            g.add_vertex(labels[i].clone());
            i = i + 1;
            proof {
                assert(lv.take(i as int) =~= lv.take(i as int - 1).push(lv[i as int - 1]));
                assert(g@ =~= graph_of(lv.take(i as int), Seq::empty()));
                assert forall|a: int, b: int|
                    0 <= a < b < i implies lv.take(i as int)[a] != lv.take(i as int)[b] by {
                    if b < i - 1 {
                        assert(lv.take(i as int - 1)[a] != lv.take(i as int - 1)[b]);
                    } else {
                        assert(!lv.take(i as int - 1).contains(lv[i as int - 1]));
                        assert(lv.take(i as int - 1)[a] == lv.take(i as int)[a]);
                    }
                }
            }
        }
        proof {
            assert(lv.take(labels@.len() as int) =~= lv);
        }
        let mut k: usize = 0;
        #[verifier::loop_isolation(false)]
        while k < arrows.len()
            invariant
                g.wf(),
                k <= arrows@.len(),
                g@ == graph_of(lv, av.take(k as int)),
            decreases arrows@.len() - k,
        {
            let ghost aw = av[k as int];
            let atom = arrows[k].0.clone();
            match g.add_arrow(atom, &arrows[k].1, &arrows[k].2) {
                Err(_) => {
                    proof {
                        assert(!(lv.contains(aw.source) && lv.contains(aw.target)));
                        assert(!arrows_grounded(lv, av));
                    }
                    return None;
                },
                Ok(()) => {},
            }
            k = k + 1;
            proof {
                assert(av.take(k as int) =~= av.take(k as int - 1).push(av[k as int - 1]));
                assert(g@ =~= graph_of(lv, av.take(k as int)));
            }
        }
        proof {
            assert(av.take(arrows@.len() as int) =~= av);
            assert(g@ =~= graph_of(lv, av));
            lemma_wf_graph(&g);
            assert(arrows_grounded(lv, av));
            assert(distinct_labels(lv));
        }
        Some(g)
    }
}


} // verus!
