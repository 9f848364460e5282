//! Where the nodes of a parse lie in the text.
use vstd::prelude::*;

use crate::grammar::{
    Rule,
    Word,
    ch,
    ch2,
    clamp,
    kw,
    spec_arg_list,
    spec_block,
    spec_bool_ty,
    spec_borrow_stmt,
    spec_call_expr,
    spec_expr,
    spec_expr_stmt,
    spec_function,
    spec_functions,
    spec_gate,
    spec_ident,
    spec_if_expr,
    spec_let_stmt,
    spec_lifetime,
    spec_lifetime_empty,
    spec_lifetime_pair,
    spec_lifetime_preorder,
    spec_lifetime_static,
    spec_lifetime_stmt,
    spec_lifetime_var,
    spec_lifted_expr,
    spec_lit_bool,
    spec_lit_unit,
    spec_meas_expr,
    spec_more_args,
    spec_more_items,
    spec_more_params,
    spec_param,
    spec_param_list,
    spec_preorder_item,
    spec_product_ty,
    spec_program,
    spec_qbit_ty,
    spec_qif_expr,
    spec_qstate,
    spec_ref_ty,
    spec_rule,
    spec_sigil_ty,
    spec_signature,
    spec_stmt,
    spec_stmts,
    spec_tuple_expr,
    spec_ty,
    spec_unique_ty,
    spec_unit_ty,
    spec_unitary_expr,
    within,
    ws,
};
use crate::parser::spec_parse;
use crate::tree::{SPair, leaf, node};

verus! {

/// A node whose span runs forwards, and whose children lie, in order and
/// without overlapping, within it, and are such nodes themselves.
#[verifier::opaque]
pub open spec fn well_nested(n: SPair) -> bool
    decreases n,
{
    &&& n.start <= n.end
    &&& forall|i: int|
        0 <= i < n.children.len() ==> {
            &&& n.start <= (#[trigger] n.children[i]).start
            &&& n.children[i].end <= n.end
            &&& well_nested(n.children[i])
        }
    &&& forall|i: int, j: int|
        0 <= i < j < n.children.len() ==> (#[trigger] n.children[i]).end <= (
        #[trigger] n.children[j]).start
}

/// What a rule matched at `p` gives, if anything: a well-nested node that
/// starts at `p` and ends where the match ends, within the text.
pub open spec fn spans_ok(s: Seq<char>, p: int, r: Option<(int, SPair)>) -> bool {
    r matches Some((e, n)) ==> n.start == p && n.end == e && e <= s.len() && well_nested(n)
}


/// Nodes that lie, in order and without overlapping, within `lo..hi`, each
/// well nested.
pub open spec fn in_order(cs: Seq<SPair>, lo: int, hi: int) -> bool {
    &&& forall|i: int|
        0 <= i < cs.len() ==> {
            &&& lo <= (#[trigger] cs[i]).start
            &&& cs[i].end <= hi
            &&& well_nested(cs[i])
        }
    &&& forall|i: int, j: int| 0 <= i < j < cs.len() ==> (#[trigger] cs[i]).end <= (#[trigger] cs[j]).start
}

proof fn lemma_node(rule: Rule, p: int, e: int, cs: Seq<SPair>)
    requires
        p <= e,
        in_order(cs, p, e),
    ensures
        well_nested(node(rule, p, e, cs)),
{
    let n = node(rule, p, e, cs);
    reveal(well_nested);
    assert(n.children == cs);
}

proof fn lemma_leaf(rule: Rule, p: int, e: int)
    requires
        p <= e,
    ensures
        well_nested(leaf(rule, p, e)),
{
    reveal(well_nested);
}

proof fn lemma_in_order_1(a: SPair, lo: int, hi: int)
    requires
        lo <= a.start,
        a.end <= hi,
        well_nested(a),
    ensures
        in_order(seq![a], lo, hi),
{
    let cs = seq![a];
    assert(cs[0] == a);
}

proof fn lemma_in_order_2(a: SPair, b: SPair, lo: int, hi: int)
    requires
        lo <= a.start,
        a.end <= b.start,
        b.end <= hi,
        well_nested(a),
        well_nested(b),
    ensures
        in_order(seq![a, b], lo, hi),
{
    lemma_start_le_end(b);
    lemma_in_order_1(b, a.end, hi);
    lemma_in_order_cons(a, seq![b], lo, hi);
    assert(seq![a] + seq![b] =~= seq![a, b]);
}

proof fn lemma_in_order_3(a: SPair, b: SPair, c: SPair, lo: int, hi: int)
    requires
        lo <= a.start,
        a.end <= b.start,
        b.end <= c.start,
        c.end <= hi,
        well_nested(a),
        well_nested(b),
        well_nested(c),
    ensures
        in_order(seq![a, b, c], lo, hi),
{
    lemma_start_le_end(b);
    lemma_start_le_end(c);
    lemma_in_order_2(b, c, a.end, hi);
    lemma_in_order_cons(a, seq![b, c], lo, hi);
    assert(seq![a] + seq![b, c] =~= seq![a, b, c]);
}

proof fn lemma_in_order_cons(x: SPair, rest: Seq<SPair>, lo: int, hi: int)
    requires
        lo <= x.start,
        x.end <= hi,
        well_nested(x),
        in_order(rest, x.end, hi),
    ensures
        in_order(seq![x] + rest, lo, hi),
{
    lemma_start_le_end(x);
    let cs = seq![x] + rest;
    assert forall|i: int| 0 <= i < cs.len() implies {
        &&& lo <= (#[trigger] cs[i]).start
        &&& cs[i].end <= hi
        &&& well_nested(cs[i])
    } by {
        if i == 0 {
            assert(cs[0] == x);
        } else {
            assert(cs[i] == rest[i - 1]);
        }
    }
    assert forall|i: int, j: int| 0 <= i < j < cs.len() implies (#[trigger] cs[i]).end <= (
    #[trigger] cs[j]).start by {
        assert(cs[j] == rest[j - 1]);
        if i == 0 {
            assert(cs[0] == x);
        } else {
            assert(cs[i] == rest[i - 1]);
        }
    }
}

proof fn lemma_in_order_push(cs: Seq<SPair>, x: SPair, lo: int, mid: int, hi: int)
    requires
        in_order(cs, lo, mid),
        lo <= x.start,
        mid <= x.start,
        x.end <= hi,
        well_nested(x),
    ensures
        in_order(cs.push(x), lo, hi),
{
    lemma_start_le_end(x);
    let c2 = cs.push(x);
    assert forall|i: int| 0 <= i < c2.len() implies {
        &&& lo <= (#[trigger] c2[i]).start
        &&& c2[i].end <= hi
        &&& well_nested(c2[i])
    } by {
        if i < cs.len() {
            assert(c2[i] == cs[i]);
        }
    }
    assert forall|i: int, j: int| 0 <= i < j < c2.len() implies (#[trigger] c2[i]).end <= (
    #[trigger] c2[j]).start by {
        assert(c2[i] == cs[i]);
        if j < cs.len() {
            assert(c2[j] == cs[j]);
        }
    }
}

proof fn lemma_start_le_end(n: SPair)
    requires
        well_nested(n),
    ensures
        n.start <= n.end,
{
    reveal(well_nested);
}

proof fn lemma_in_order_empty(lo: int, hi: int)
    ensures
        in_order(Seq::<SPair>::empty(), lo, hi),
{
}

// ---------------------------------------------------------------- tokens

proof fn lemma_ws(s: Seq<char>, p: int)
    ensures
        p <= ws(s, p),
        p <= s.len() ==> ws(s, p) <= s.len(),
{
}

proof fn lemma_kw(s: Seq<char>, p: int, w: Word)
    ensures
        kw(s, p, w) matches Some(e) ==> p <= e <= s.len(),
{
}

/// The rules that match a single token give leaves within the text.
proof fn lemma_leaves(s: Seq<char>, p: int)
    ensures
        spans_ok(s, p, spec_ident(s, p)),
        spans_ok(s, p, spec_lifetime_static(s, p)),
        spans_ok(s, p, spec_lifetime_empty(s, p)),
        spans_ok(s, p, spec_lifetime_var(s, p)),
        spans_ok(s, p, spec_gate(s, p)),
        spans_ok(s, p, spec_qstate(s, p)),
        spans_ok(s, p, spec_lit_bool(s, p)),
        spans_ok(s, p, spec_lit_unit(s, p)),
        spans_ok(s, p, spec_unit_ty(s, p)),
        spans_ok(s, p, spec_bool_ty(s, p)),
        spans_ok(s, p, spec_qbit_ty(s, p)),
{
    if 0 <= p < s.len() {
        crate::parser::lemma_scan_ident_bounds(s, p + 1);
    }
    if let Some(p1) = ch(s, p, '(') {
        lemma_ws(s, p1);
    }
    lemma_kw(s, p, Word::Static);
    lemma_kw(s, p, Word::True);
    lemma_kw(s, p, Word::False);
    lemma_kw(s, p, Word::Bool);
    lemma_kw(s, p, Word::Qbit);
    lemma_kw(s, p, Word::GateCnot);
    lemma_kw(s, p, Word::GateCx);
    lemma_kw(s, p, Word::GateH);
    lemma_kw(s, p, Word::GateX);
    lemma_kw(s, p, Word::GateY);
    lemma_kw(s, p, Word::GateZ);
    lemma_kw(s, p, Word::GateS);
    lemma_kw(s, p, Word::GateT);
    if p <= s.len() {
        lemma_leaf(Rule::ident, p, p);
    }
    assert forall|rule: Rule, e: int| p <= e implies well_nested(#[trigger] leaf(rule, p, e)) by {
        lemma_leaf(rule, p, e);
    }
}

proof fn lemma_lifetime(s: Seq<char>, p: int)
    ensures
        spans_ok(s, p, spec_lifetime(s, p)),
{
    if let Some(p1) = ch(s, p, '\'') {
        lemma_leaves(s, p1);
        let inner = match spec_lifetime_static(s, p1) {
            Some(r) => Some(r),
            None => match spec_lifetime_empty(s, p1) {
                Some(r) => Some(r),
                None => spec_lifetime_var(s, p1),
            },
        };
        if let Some((e, v)) = inner {
            lemma_start_le_end(v);
            lemma_in_order_1(v, p, e);
            lemma_node(Rule::lifetime, p, e, seq![v]);
        }
    }
}

// ---------------------------------------------------------------- types

proof fn lemma_ty(s: Seq<char>, p: int)
    ensures
        spans_ok(s, p, spec_ty(s, p)),
    decreases s.len() - p, 2int,
{
    lemma_leaves(s, p);
    lemma_product_ty(s, p);
    lemma_ref_ty(s, p);
    lemma_unique_ty(s, p);
    let alt = match spec_bool_ty(s, p) {
        Some(r) => Some(r),
        None => match spec_qbit_ty(s, p) {
            Some(r) => Some(r),
            None => match spec_unit_ty(s, p) {
                Some(r) => Some(r),
                None => match spec_product_ty(s, p) {
                    Some(r) => Some(r),
                    None => match spec_ref_ty(s, p) {
                        Some(r) => Some(r),
                        None => spec_unique_ty(s, p),
                    },
                },
            },
        },
    };
    if let Some((e, c)) = alt {
        lemma_in_order_1(c, p, e);
        lemma_node(Rule::ty, p, e, seq![c]);
    }
}

proof fn lemma_product_ty(s: Seq<char>, p: int)
    ensures
        spans_ok(s, p, spec_product_ty(s, p)),
    decreases s.len() - p, 1int,
{
    if let Some(p1) = ch(s, p, '(') {
        let q1 = ws(s, p1);
        lemma_ws(s, p1);
        lemma_ty(s, q1);
        if let Some((e1, a)) = within(s, q1, spec_ty(s, q1)) {
            lemma_ws(s, e1);
            if let Some(p2) = ch(s, ws(s, e1), ',') {
                let q2 = ws(s, p2);
                lemma_ws(s, p2);
                lemma_ty(s, q2);
                if let Some((e2, b)) = within(s, q2, spec_ty(s, q2)) {
                    lemma_ws(s, e2);
                    if let Some(e) = ch(s, ws(s, e2), ')') {
                        lemma_in_order_2(a, b, p, e);
                        lemma_node(Rule::product_ty, p, e, seq![a, b]);
                    }
                }
            }
        }
    }
}

proof fn lemma_sigil_ty(s: Seq<char>, p: int, sigil: char, rule: Rule)
    ensures
        spans_ok(s, p, spec_sigil_ty(s, p, sigil, rule)),
    decreases s.len() - p, 0int,
{
    if let Some(p1) = ch(s, p, sigil) {
        let q1 = ws(s, p1);
        lemma_ws(s, p1);
        lemma_lifetime(s, q1);
        if let Some((e1, lt)) = within(s, q1, spec_lifetime(s, q1)) {
            let q2 = ws(s, e1);
            lemma_ws(s, e1);
            lemma_ty(s, q2);
            if let Some((e, t)) = within(s, q2, spec_ty(s, q2)) {
                lemma_in_order_2(lt, t, p, e);
                lemma_node(rule, p, e, seq![lt, t]);
            }
        }
    }
}

proof fn lemma_ref_ty(s: Seq<char>, p: int)
    ensures
        spans_ok(s, p, spec_ref_ty(s, p)),
    decreases s.len() - p, 1int,
{
    lemma_sigil_ty(s, p, '&', Rule::ref_ty);
}

proof fn lemma_unique_ty(s: Seq<char>, p: int)
    ensures
        spans_ok(s, p, spec_unique_ty(s, p)),
    decreases s.len() - p, 1int,
{
    lemma_sigil_ty(s, p, '#', Rule::unique_ty);
}


/// What a repetition matched from `p` gives: an end at or after `p`, within
/// the text when `p` is, and nodes in order between `p` and that end.
pub open spec fn list_ok(s: Seq<char>, p: int, r: (int, Seq<SPair>)) -> bool {
    &&& p <= r.0
    &&& (p <= s.len() ==> r.0 <= s.len())
    &&& in_order(r.1, p, r.0)
}

proof fn lemma_in_order_weaken(cs: Seq<SPair>, lo: int, hi: int, lo2: int, hi2: int)
    requires
        in_order(cs, lo, hi),
        lo2 <= lo,
        hi <= hi2,
    ensures
        in_order(cs, lo2, hi2),
{
}

/// A node built at `p` from an `Option` result: the helper for one child.
proof fn lemma_node_1(rule: Rule, p: int, e: int, a: SPair)
    requires
        p <= a.start,
        a.end <= e,
        well_nested(a),
    ensures
        well_nested(node(rule, p, e, seq![a])),
{
    lemma_start_le_end(a);
    lemma_in_order_1(a, p, e);
    lemma_node(rule, p, e, seq![a]);
}

proof fn lemma_node_2(rule: Rule, p: int, e: int, a: SPair, b: SPair)
    requires
        p <= a.start,
        a.end <= b.start,
        b.end <= e,
        well_nested(a),
        well_nested(b),
    ensures
        well_nested(node(rule, p, e, seq![a, b])),
{
    lemma_start_le_end(a);
    lemma_start_le_end(b);
    lemma_in_order_2(a, b, p, e);
    lemma_node(rule, p, e, seq![a, b]);
}

proof fn lemma_node_3(rule: Rule, p: int, e: int, a: SPair, b: SPair, c: SPair)
    requires
        p <= a.start,
        a.end <= b.start,
        b.end <= c.start,
        c.end <= e,
        well_nested(a),
        well_nested(b),
        well_nested(c),
    ensures
        well_nested(node(rule, p, e, seq![a, b, c])),
{
    lemma_start_le_end(a);
    lemma_start_le_end(b);
    lemma_start_le_end(c);
    lemma_in_order_3(a, b, c, p, e);
    lemma_node(rule, p, e, seq![a, b, c]);
}

/// A node made of a first child and the nodes of a repetition after it.
proof fn lemma_node_cons(rule: Rule, p: int, e: int, x: SPair, e2: int, rest: Seq<SPair>)
    requires
        p <= x.start,
        well_nested(x),
        x.end <= e2 <= e,
        in_order(rest, x.end, e2),
    ensures
        well_nested(node(rule, p, e, seq![x] + rest)),
{
    lemma_start_le_end(x);
    lemma_in_order_weaken(rest, x.end, e2, x.end, e);
    lemma_in_order_cons(x, rest, p, e);
    lemma_node(rule, p, e, seq![x] + rest);
}

// ---------------------------------------------------------------- expressions, blocks, statements

proof fn lemma_expr(s: Seq<char>, p: int)
    ensures
        spans_ok(s, p, spec_expr(s, p)),
    decreases s.len() - p, 2int,
{
    lemma_leaves(s, p);
    lemma_if_expr(s, p);
    lemma_qif_expr(s, p);
    lemma_block(s, p);
    lemma_tuple_expr(s, p);
    lemma_meas_expr(s, p);
    lemma_unitary_expr(s, p);
    lemma_lifted_expr(s, p);
    lemma_call_expr(s, p);
    if let Some((e, n)) = spec_expr(s, p) {
        let c = n.children[0];
        assert(n.children == seq![c]);
        lemma_node_1(Rule::expr, p, e, c);
    }
}

proof fn lemma_if_expr(s: Seq<char>, p: int)
    ensures
        spans_ok(s, p, spec_if_expr(s, p)),
    decreases s.len() - p, 1int,
{
    lemma_kw(s, p, Word::If);
    if let Some(p1) = kw(s, p, Word::If) {
        let q1 = ws(s, p1);
        lemma_ws(s, p1);
        lemma_expr(s, q1);
        if let Some((e1, c)) = within(s, q1, spec_expr(s, q1)) {
            let q2 = ws(s, e1);
            lemma_ws(s, e1);
            lemma_block(s, q2);
            if let Some((e2, t)) = within(s, q2, spec_block(s, q2)) {
                lemma_node_2(Rule::if_expr, p, e2, c, t);
                lemma_ws(s, e2);
                lemma_kw(s, ws(s, e2), Word::Else);
                if let Some(p3) = kw(s, ws(s, e2), Word::Else) {
                    let q3 = ws(s, p3);
                    lemma_ws(s, p3);
                    lemma_block(s, q3);
                    if let Some((e, f)) = within(s, q3, spec_block(s, q3)) {
                        lemma_node_3(Rule::if_expr, p, e, c, t, f);
                    }
                }
            }
        }
    }
}

proof fn lemma_qif_expr(s: Seq<char>, p: int)
    ensures
        spans_ok(s, p, spec_qif_expr(s, p)),
    decreases s.len() - p, 1int,
{
    lemma_kw(s, p, Word::Qif);
    if let Some(p1) = kw(s, p, Word::Qif) {
        let q1 = ws(s, p1);
        lemma_ws(s, p1);
        lemma_leaves(s, q1);
        if let Some((e1, c)) = within(s, q1, spec_ident(s, q1)) {
            let q2 = ws(s, e1);
            lemma_ws(s, e1);
            lemma_block(s, q2);
            if let Some((e2, t)) = within(s, q2, spec_block(s, q2)) {
                lemma_ws(s, e2);
                lemma_kw(s, ws(s, e2), Word::Else);
                if let Some(p3) = kw(s, ws(s, e2), Word::Else) {
                    let q3 = ws(s, p3);
                    lemma_ws(s, p3);
                    lemma_block(s, q3);
                    if let Some((e, f)) = within(s, q3, spec_block(s, q3)) {
                        lemma_node_3(Rule::qif_expr, p, e, c, t, f);
                    }
                }
            }
        }
    }
}

proof fn lemma_tuple_expr(s: Seq<char>, p: int)
    ensures
        spans_ok(s, p, spec_tuple_expr(s, p)),
    decreases s.len() - p, 1int,
{
    if let Some(p1) = ch(s, p, '(') {
        let q1 = ws(s, p1);
        lemma_ws(s, p1);
        lemma_expr(s, q1);
        if let Some((e1, a)) = within(s, q1, spec_expr(s, q1)) {
            lemma_ws(s, e1);
            if let Some(p2) = ch(s, ws(s, e1), ',') {
                let q2 = ws(s, p2);
                lemma_ws(s, p2);
                lemma_expr(s, q2);
                if let Some((e2, b)) = within(s, q2, spec_expr(s, q2)) {
                    lemma_ws(s, e2);
                    if let Some(e) = ch(s, ws(s, e2), ')') {
                        lemma_node_2(Rule::tuple_expr, p, e, a, b);
                    }
                }
            }
        }
    }
}

proof fn lemma_meas_expr(s: Seq<char>, p: int)
    ensures
        spans_ok(s, p, spec_meas_expr(s, p)),
    decreases s.len() - p, 1int,
{
    lemma_kw(s, p, Word::Meas);
    if let Some(p1) = kw(s, p, Word::Meas) {
        lemma_ws(s, p1);
        if let Some(p2) = ch(s, ws(s, p1), '(') {
            let q2 = ws(s, p2);
            lemma_ws(s, p2);
            lemma_expr(s, q2);
            if let Some((e1, x)) = within(s, q2, spec_expr(s, q2)) {
                lemma_ws(s, e1);
                if let Some(e) = ch(s, ws(s, e1), ')') {
                    lemma_node_1(Rule::meas_expr, p, e, x);
                }
            }
        }
    }
}

proof fn lemma_unitary_expr(s: Seq<char>, p: int)
    ensures
        spans_ok(s, p, spec_unitary_expr(s, p)),
    decreases s.len() - p, 1int,
{
    lemma_leaves(s, p);
    if let Some((e1, g)) = within(s, p, spec_gate(s, p)) {
        if e1 > p {
            let q1 = ws(s, e1);
            lemma_ws(s, e1);
            lemma_arg_list(s, q1);
            if let Some((e, a)) = within(s, q1, spec_arg_list(s, q1)) {
                lemma_node_2(Rule::unitary_expr, p, e, g, a);
            }
        }
    }
}

proof fn lemma_lifted_expr(s: Seq<char>, p: int)
    ensures
        spans_ok(s, p, spec_lifted_expr(s, p)),
    decreases s.len() - p, 1int,
{
    if let Some(p1) = ch(s, p, '[') {
        let q1 = ws(s, p1);
        lemma_ws(s, p1);
        lemma_leaves(s, q1);
        let target = match spec_qstate(s, q1) {
            Some(r) => Some(r),
            None => spec_ident(s, q1),
        };
        if let Some((e1, t)) = within(s, q1, target) {
            lemma_ws(s, e1);
            if let Some(p2) = ch(s, ws(s, e1), ']') {
                let q2 = ws(s, p2);
                lemma_ws(s, p2);
                lemma_arg_list(s, q2);
                if let Some((e, a)) = within(s, q2, spec_arg_list(s, q2)) {
                    lemma_node_2(Rule::lifted_expr, p, e, t, a);
                }
            }
        }
    }
}

proof fn lemma_call_expr(s: Seq<char>, p: int)
    ensures
        spans_ok(s, p, spec_call_expr(s, p)),
    decreases s.len() - p, 1int,
{
    lemma_leaves(s, p);
    if let Some((e1, f)) = within(s, p, spec_ident(s, p)) {
        if e1 > p {
            let q1 = ws(s, e1);
            lemma_ws(s, e1);
            lemma_arg_list(s, q1);
            if let Some((e, a)) = within(s, q1, spec_arg_list(s, q1)) {
                lemma_node_2(Rule::call_expr, p, e, f, a);
            }
        }
    }
}

proof fn lemma_arg_list(s: Seq<char>, p: int)
    ensures
        spans_ok(s, p, spec_arg_list(s, p)),
    decreases s.len() - p, 1int,
{
    if let Some(p1) = ch(s, p, '(') {
        let q1 = ws(s, p1);
        lemma_ws(s, p1);
        lemma_expr(s, q1);
        match within(s, q1, spec_expr(s, q1)) {
            None => {
                if let Some(e) = ch(s, q1, ')') {
                    lemma_in_order_empty(p, e);
                    lemma_node(Rule::arg_list, p, e, seq![]);
                }
            },
            Some((e1, x)) => {
                lemma_more_args(s, e1);
                let (e2, rest) = spec_more_args(s, e1);
                lemma_ws(s, e2);
                if let Some(e) = ch(s, ws(s, e2), ')') {
                    lemma_node_cons(Rule::arg_list, p, e, x, e2, rest);
                }
            },
        }
    }
}

proof fn lemma_more_args(s: Seq<char>, p: int)
    requires
        p <= s.len(),
    ensures
        list_ok(s, p, spec_more_args(s, p)),
    decreases s.len() - p, 1int,
{
    lemma_ws(s, p);
    match ch(s, ws(s, p), ',') {
        None => lemma_in_order_empty(p, p),
        Some(p1) => {
            let q1 = ws(s, p1);
            lemma_ws(s, p1);
            lemma_expr(s, q1);
            match within(s, q1, spec_expr(s, q1)) {
                None => lemma_in_order_empty(p, p),
                Some((e1, x)) => {
                    lemma_more_args(s, e1);
                    let (e2, rest) = spec_more_args(s, e1);
                    lemma_start_le_end(x);
                    lemma_in_order_cons(x, rest, p, e2);
                },
            }
        },
    }
}

proof fn lemma_block(s: Seq<char>, p: int)
    ensures
        spans_ok(s, p, spec_block(s, p)),
    decreases s.len() - p, 1int,
{
    if let Some(p1) = ch(s, p, '{') {
        let q1 = ws(s, p1);
        lemma_ws(s, p1);
        lemma_stmts(s, q1);
        let (e1, stmts) = spec_stmts(s, q1);
        let q2 = ws(s, clamp(s, q1, e1));
        lemma_ws(s, clamp(s, q1, e1));
        lemma_expr(s, q2);
        match within(s, q2, spec_expr(s, q2)) {
            None => {
                if let Some(e) = ch(s, q2, '}') {
                    lemma_in_order_weaken(stmts, q1, e1, p, e);
                    lemma_node(Rule::block, p, e, stmts);
                }
            },
            Some((e2, x)) => {
                lemma_ws(s, e2);
                if let Some(e) = ch(s, ws(s, e2), '}') {
                    lemma_in_order_weaken(stmts, q1, e1, p, e1);
                    lemma_in_order_push(stmts, x, p, e1, e);
                    lemma_node(Rule::block, p, e, stmts.push(x));
                }
            },
        }
    }
}

proof fn lemma_stmts(s: Seq<char>, p: int)
    requires
        p <= s.len(),
    ensures
        list_ok(s, p, spec_stmts(s, p)),
    decreases s.len() - p, 5int,
{
    lemma_stmt(s, p);
    match within(s, p, spec_stmt(s, p)) {
        None => lemma_in_order_empty(p, p),
        Some((e1, st)) => {
            if e1 > p {
                lemma_ws(s, e1);
                lemma_stmts(s, ws(s, e1));
                let (e2, rest) = spec_stmts(s, ws(s, e1));
                lemma_start_le_end(st);
                if rest.len() == 0 {
                    lemma_in_order_cons(st, rest, p, e1);
                } else {
                    lemma_in_order_weaken(rest, ws(s, e1), e2, e1, e2);
                    lemma_in_order_cons(st, rest, p, e2);
                }
            } else {
                lemma_in_order_empty(p, p);
            }
        },
    }
}

proof fn lemma_stmt(s: Seq<char>, p: int)
    ensures
        spans_ok(s, p, spec_stmt(s, p)),
    decreases s.len() - p, 4int,
{
    lemma_let_stmt(s, p);
    lemma_borrow_stmt(s, p);
    lemma_lifetime_stmt(s, p, Word::Newlft, Rule::newlft_stmt);
    lemma_lifetime_stmt(s, p, Word::Endlft, Rule::endlft_stmt);
    lemma_expr_stmt(s, p);
    if let Some((e, n)) = spec_stmt(s, p) {
        let c = n.children[0];
        assert(n.children == seq![c]);
        lemma_node_1(Rule::stmt, p, e, c);
    }
}

proof fn lemma_let_stmt(s: Seq<char>, p: int)
    ensures
        spans_ok(s, p, spec_let_stmt(s, p)),
    decreases s.len() - p, 3int,
{
    lemma_kw(s, p, Word::Let);
    if let Some(p1) = kw(s, p, Word::Let) {
        let q1 = ws(s, p1);
        lemma_ws(s, p1);
        lemma_leaves(s, q1);
        if let Some((e1, name)) = within(s, q1, spec_ident(s, q1)) {
            lemma_ws(s, e1);
            if let Some(p2) = ch(s, ws(s, e1), ':') {
                let q2 = ws(s, p2);
                lemma_ws(s, p2);
                lemma_ty(s, q2);
                if let Some((e2, t)) = within(s, q2, spec_ty(s, q2)) {
                    lemma_ws(s, e2);
                    if let Some(p3) = ch(s, ws(s, e2), '=') {
                        let q3 = ws(s, p3);
                        lemma_ws(s, p3);
                        lemma_expr(s, q3);
                        if let Some((e3, x)) = within(s, q3, spec_expr(s, q3)) {
                            lemma_ws(s, e3);
                            if let Some(e) = ch(s, ws(s, e3), ';') {
                                lemma_node_3(Rule::let_stmt, p, e, name, t, x);
                            }
                        }
                    }
                }
            }
        }
    }
}

proof fn lemma_borrow_stmt(s: Seq<char>, p: int)
    ensures
        spans_ok(s, p, spec_borrow_stmt(s, p)),
{
    lemma_kw(s, p, Word::Let);
    if let Some(p1) = kw(s, p, Word::Let) {
        let q1 = ws(s, p1);
        lemma_ws(s, p1);
        lemma_leaves(s, q1);
        if let Some((e1, name)) = within(s, q1, spec_ident(s, q1)) {
            lemma_ws(s, e1);
            if let Some(p2) = ch(s, ws(s, e1), '=') {
                lemma_ws(s, p2);
                if let Some(p3) = ch(s, ws(s, p2), '&') {
                    let q3 = ws(s, p3);
                    lemma_ws(s, p3);
                    lemma_lifetime(s, q3);
                    if let Some((e3, lt)) = within(s, q3, spec_lifetime(s, q3)) {
                        let q4 = ws(s, e3);
                        lemma_ws(s, e3);
                        lemma_leaves(s, q4);
                        if let Some((e4, src)) = within(s, q4, spec_ident(s, q4)) {
                            lemma_ws(s, e4);
                            if let Some(e) = ch(s, ws(s, e4), ';') {
                                lemma_node_3(Rule::borrow_stmt, p, e, name, lt, src);
                            }
                        }
                    }
                }
            }
        }
    }
}

proof fn lemma_lifetime_stmt(s: Seq<char>, p: int, w: Word, rule: Rule)
    ensures
        spans_ok(s, p, spec_lifetime_stmt(s, p, w, rule)),
{
    lemma_kw(s, p, w);
    if let Some(p1) = kw(s, p, w) {
        let q1 = ws(s, p1);
        lemma_ws(s, p1);
        lemma_lifetime(s, q1);
        if let Some((e1, lt)) = within(s, q1, spec_lifetime(s, q1)) {
            lemma_ws(s, e1);
            if let Some(e) = ch(s, ws(s, e1), ';') {
                lemma_node_1(rule, p, e, lt);
            }
        }
    }
}

proof fn lemma_expr_stmt(s: Seq<char>, p: int)
    ensures
        spans_ok(s, p, spec_expr_stmt(s, p)),
    decreases s.len() - p, 3int,
{
    lemma_expr(s, p);
    if let Some((e1, x)) = within(s, p, spec_expr(s, p)) {
        lemma_ws(s, e1);
        if let Some(e) = ch(s, ws(s, e1), ';') {
            lemma_node_1(Rule::expr_stmt, p, e, x);
        }
    }
}


// ---------------------------------------------------------------- functions

proof fn lemma_lifetime_pair(s: Seq<char>, p: int, c1: char, rule: Rule)
    ensures
        spans_ok(s, p, spec_lifetime_pair(s, p, c1, rule)),
{
    lemma_lifetime(s, p);
    if let Some((e1, a)) = within(s, p, spec_lifetime(s, p)) {
        lemma_ws(s, e1);
        if let Some(p2) = ch2(s, ws(s, e1), c1, '=') {
            let q2 = ws(s, p2);
            lemma_ws(s, p2);
            lemma_lifetime(s, q2);
            if let Some((e, b)) = within(s, q2, spec_lifetime(s, q2)) {
                lemma_node_2(rule, p, e, a, b);
            }
        }
    }
}

proof fn lemma_preorder_item(s: Seq<char>, p: int)
    ensures
        spans_ok(s, p, spec_preorder_item(s, p)),
{
    lemma_lifetime_pair(s, p, '<', Rule::lifetime_le);
    lemma_lifetime_pair(s, p, '!', Rule::lifetime_neq);
    lemma_lifetime(s, p);
}

proof fn lemma_more_items(s: Seq<char>, p: int)
    requires
        p <= s.len(),
    ensures
        list_ok(s, p, spec_more_items(s, p)),
    decreases s.len() - p,
{
    lemma_ws(s, p);
    match ch(s, ws(s, p), ',') {
        None => lemma_in_order_empty(p, p),
        Some(p1) => {
            let q1 = ws(s, p1);
            lemma_ws(s, p1);
            lemma_preorder_item(s, q1);
            match within(s, q1, spec_preorder_item(s, q1)) {
                None => lemma_in_order_empty(p, p),
                Some((e1, x)) => {
                    lemma_more_items(s, e1);
                    let (e2, rest) = spec_more_items(s, e1);
                    lemma_start_le_end(x);
                    lemma_in_order_cons(x, rest, p, e2);
                },
            }
        },
    }
}

proof fn lemma_lifetime_preorder(s: Seq<char>, p: int)
    ensures
        spans_ok(s, p, spec_lifetime_preorder(s, p)),
{
    if let Some(p1) = ch(s, p, '<') {
        let q1 = ws(s, p1);
        lemma_ws(s, p1);
        lemma_preorder_item(s, q1);
        if let Some((e1, x)) = within(s, q1, spec_preorder_item(s, q1)) {
            lemma_more_items(s, e1);
            let (e2, rest) = spec_more_items(s, e1);
            lemma_ws(s, e2);
            if let Some(e) = ch(s, ws(s, e2), '>') {
                lemma_node_cons(Rule::lifetime_preorder, p, e, x, e2, rest);
            }
        }
    }
}

proof fn lemma_param(s: Seq<char>, p: int)
    ensures
        spans_ok(s, p, spec_param(s, p)),
{
    lemma_leaves(s, p);
    if let Some((e1, name)) = within(s, p, spec_ident(s, p)) {
        lemma_ws(s, e1);
        if let Some(p2) = ch(s, ws(s, e1), ':') {
            let q2 = ws(s, p2);
            lemma_ws(s, p2);
            lemma_ty(s, q2);
            if let Some((e, t)) = within(s, q2, spec_ty(s, q2)) {
                lemma_node_2(Rule::param, p, e, name, t);
            }
        }
    }
}

proof fn lemma_more_params(s: Seq<char>, p: int)
    requires
        p <= s.len(),
    ensures
        list_ok(s, p, spec_more_params(s, p)),
    decreases s.len() - p,
{
    lemma_ws(s, p);
    match ch(s, ws(s, p), ',') {
        None => lemma_in_order_empty(p, p),
        Some(p1) => {
            let q1 = ws(s, p1);
            lemma_ws(s, p1);
            lemma_param(s, q1);
            match within(s, q1, spec_param(s, q1)) {
                None => lemma_in_order_empty(p, p),
                Some((e1, x)) => {
                    lemma_more_params(s, e1);
                    let (e2, rest) = spec_more_params(s, e1);
                    lemma_start_le_end(x);
                    lemma_in_order_cons(x, rest, p, e2);
                },
            }
        },
    }
}

proof fn lemma_param_list(s: Seq<char>, p: int)
    ensures
        spans_ok(s, p, spec_param_list(s, p)),
{
    if let Some(p1) = ch(s, p, '(') {
        let q1 = ws(s, p1);
        lemma_ws(s, p1);
        lemma_param(s, q1);
        match within(s, q1, spec_param(s, q1)) {
            None => {
                if let Some(e) = ch(s, q1, ')') {
                    lemma_in_order_empty(p, e);
                    lemma_node(Rule::param_list, p, e, seq![]);
                }
            },
            Some((e1, x)) => {
                lemma_more_params(s, e1);
                let (e2, rest) = spec_more_params(s, e1);
                lemma_ws(s, e2);
                if let Some(e) = ch(s, ws(s, e2), ')') {
                    lemma_node_cons(Rule::param_list, p, e, x, e2, rest);
                }
            },
        }
    }
}

proof fn lemma_signature(s: Seq<char>, p: int)
    ensures
        spans_ok(s, p, spec_signature(s, p)),
{
    lemma_lifetime_preorder(s, p);
    let (q1, pre) = match within(s, p, spec_lifetime_preorder(s, p)) {
        Some((e0, lp)) => (ws(s, e0), seq![lp]),
        None => (p, seq![]),
    };
    if let Some((e0, lp)) = within(s, p, spec_lifetime_preorder(s, p)) {
        lemma_ws(s, e0);
    }
    lemma_param_list(s, q1);
    if let Some((e1, params)) = within(s, q1, spec_param_list(s, q1)) {
        lemma_ws(s, e1);
        if let Some(p2) = ch2(s, ws(s, e1), '-', '>') {
            let q2 = ws(s, p2);
            lemma_ws(s, p2);
            lemma_ty(s, q2);
            if let Some((e, t)) = within(s, q2, spec_ty(s, q2)) {
                lemma_start_le_end(params);
                lemma_start_le_end(t);
                lemma_in_order_2(params, t, q1, e);
                if let Some((e0, lp)) = within(s, p, spec_lifetime_preorder(s, p)) {
                    lemma_start_le_end(lp);
                    lemma_in_order_cons(lp, seq![params, t], p, e);
                } else {
                    assert(pre + seq![params, t] =~= seq![params, t]);
                    lemma_in_order_weaken(seq![params, t], q1, e, p, e);
                }
                lemma_node(Rule::signature, p, e, pre + seq![params, t]);
            }
        }
    }
}

proof fn lemma_function(s: Seq<char>, p: int)
    ensures
        spans_ok(s, p, spec_function(s, p)),
{
    lemma_kw(s, p, Word::Fn);
    if let Some(p1) = kw(s, p, Word::Fn) {
        let q1 = ws(s, p1);
        lemma_ws(s, p1);
        lemma_leaves(s, q1);
        if let Some((e1, name)) = within(s, q1, spec_ident(s, q1)) {
            let q2 = ws(s, e1);
            lemma_ws(s, e1);
            lemma_signature(s, q2);
            if let Some((e2, sig)) = within(s, q2, spec_signature(s, q2)) {
                let q3 = ws(s, e2);
                lemma_ws(s, e2);
                lemma_block(s, q3);
                if let Some((e, body)) = within(s, q3, spec_block(s, q3)) {
                    lemma_node_3(Rule::function, p, e, name, sig, body);
                }
            }
        }
    }
}

proof fn lemma_functions(s: Seq<char>, p: int)
    requires
        p <= s.len(),
    ensures
        list_ok(s, p, spec_functions(s, p)),
    decreases s.len() - p,
{
    lemma_function(s, p);
    match within(s, p, spec_function(s, p)) {
        None => lemma_in_order_empty(p, p),
        Some((e1, f)) => {
            if e1 > p {
                lemma_ws(s, e1);
                lemma_functions(s, ws(s, e1));
                let (e2, rest) = spec_functions(s, ws(s, e1));
                lemma_start_le_end(f);
                if rest.len() == 0 {
                    lemma_in_order_cons(f, rest, p, e1);
                } else {
                    lemma_in_order_weaken(rest, ws(s, e1), e2, e1, e2);
                    lemma_in_order_cons(f, rest, p, e2);
                }
            } else {
                lemma_in_order_empty(p, p);
            }
        },
    }
}


proof fn lemma_rule(rule: Rule, s: Seq<char>, p: int)
    ensures
        spans_ok(s, p, spec_rule(rule, s, p)),
{
    match rule {
        Rule::EOI => lemma_leaf(Rule::EOI, p, p),
        Rule::program => {},
        Rule::function => lemma_function(s, p),
        Rule::signature => lemma_signature(s, p),
        Rule::lifetime_preorder => lemma_lifetime_preorder(s, p),
        Rule::lifetime_le => lemma_lifetime_pair(s, p, '<', Rule::lifetime_le),
        Rule::lifetime_neq => lemma_lifetime_pair(s, p, '!', Rule::lifetime_neq),
        Rule::param_list => lemma_param_list(s, p),
        Rule::param => lemma_param(s, p),
        Rule::ty => lemma_ty(s, p),
        Rule::product_ty => lemma_product_ty(s, p),
        Rule::ref_ty => lemma_ref_ty(s, p),
        Rule::unique_ty => lemma_unique_ty(s, p),
        Rule::lifetime => lemma_lifetime(s, p),
        Rule::block => lemma_block(s, p),
        Rule::stmt => lemma_stmt(s, p),
        Rule::let_stmt => lemma_let_stmt(s, p),
        Rule::borrow_stmt => lemma_borrow_stmt(s, p),
        Rule::newlft_stmt => lemma_lifetime_stmt(s, p, Word::Newlft, Rule::newlft_stmt),
        Rule::endlft_stmt => lemma_lifetime_stmt(s, p, Word::Endlft, Rule::endlft_stmt),
        Rule::expr_stmt => lemma_expr_stmt(s, p),
        Rule::expr => lemma_expr(s, p),
        Rule::if_expr => lemma_if_expr(s, p),
        Rule::qif_expr => lemma_qif_expr(s, p),
        Rule::tuple_expr => lemma_tuple_expr(s, p),
        Rule::meas_expr => lemma_meas_expr(s, p),
        Rule::unitary_expr => lemma_unitary_expr(s, p),
        Rule::lifted_expr => lemma_lifted_expr(s, p),
        Rule::call_expr => lemma_call_expr(s, p),
        Rule::arg_list => lemma_arg_list(s, p),
        _ => lemma_leaves(s, p),
    }
}

/// Every node that parsing gives lies within the text, after the nodes
/// before it, and holds its children in order, without overlap, within its
/// own span: so the text of each node is a piece of the text, and the texts
/// of its children are pieces of its own, in order.
pub proof fn law_parse_trees_are_nested(rule: Rule, s: Seq<char>)
    ensures
        spec_parse(rule, s) matches Ok(ps) ==> in_order(ps, 0, s.len() as int),
{
    if rule == Rule::program {
        let q0 = ws(s, 0);
        lemma_ws(s, 0);
        lemma_functions(s, q0);
        let (e, fns) = spec_functions(s, q0);
        if let Ok(ps) = spec_program(s) {
            let n = s.len() as int;
            lemma_leaf(Rule::EOI, n, n);
            lemma_in_order_weaken(fns, q0, e, 0, e);
            lemma_in_order_push(fns, leaf(Rule::EOI, n, n), 0, e, n);
        }
    } else {
        lemma_rule(rule, s, 0);
        if let Some((e, nd)) = spec_rule(rule, s, 0) {
            lemma_start_le_end(nd);
            lemma_in_order_1(nd, 0, s.len() as int);
        }
    }
}


// ---------------------------------------------------------------- what the nodes are

/// Parsing a rule gives, when it matches, a node of that very rule.
pub proof fn law_rule_gives_node_of_rule(rule: Rule, s: Seq<char>, p: int)
    ensures
        spec_rule(rule, s, p) matches Some((_, n)) ==> n.rule == rule,
{
    match rule {
        Rule::EOI => {},
        Rule::program => {},
        Rule::function => {},
        Rule::signature => {},
        Rule::lifetime_preorder => {},
        Rule::lifetime_le => {},
        Rule::lifetime_neq => {},
        Rule::param_list => {},
        Rule::param => {},
        Rule::ty => {},
        Rule::bool_ty => {},
        Rule::qbit_ty => {},
        Rule::unit_ty => {},
        Rule::product_ty => {},
        Rule::ref_ty => {},
        Rule::unique_ty => {},
        Rule::lifetime => {},
        Rule::lifetime_static => {},
        Rule::lifetime_empty => {},
        Rule::lifetime_var => {},
        Rule::block => {},
        Rule::stmt => {},
        Rule::let_stmt => {},
        Rule::borrow_stmt => {},
        Rule::newlft_stmt => {},
        Rule::endlft_stmt => {},
        Rule::expr_stmt => {},
        Rule::expr => {},
        Rule::if_expr => {},
        Rule::qif_expr => {},
        Rule::lit_bool => {},
        Rule::lit_unit => {},
        Rule::tuple_expr => {},
        Rule::meas_expr => {},
        Rule::unitary_expr => {},
        Rule::gate => {},
        Rule::lifted_expr => {},
        Rule::qstate => {},
        Rule::call_expr => {},
        Rule::arg_list => {},
        Rule::ident => {},
    }
}

/// A lifetime preorder item is a lifetime alone, or a constraint between two
/// lifetimes whose rule matches the operator written between them: a
/// `lifetime_le` node has `<=` there, and a `lifetime_neq` node has `!=`.
pub proof fn law_constraint_rule_matches_operator(s: Seq<char>, p: int)
    ensures
        spec_preorder_item(s, p) matches Some((_, n)) ==> {
            &&& n.rule == Rule::lifetime || n.rule == Rule::lifetime_le || n.rule == Rule::lifetime_neq
            &&& n.rule != Rule::lifetime ==> n.children.len() == 2 && n.children[0].rule == Rule::lifetime
                && n.children[1].rule == Rule::lifetime
            &&& n.rule == Rule::lifetime_le ==> {
                let q = ws(s, n.children[0].end);
                0 <= q && q + 1 < s.len() && s[q] == '<' && s[q + 1] == '='
            }
            &&& n.rule == Rule::lifetime_neq ==> {
                let q = ws(s, n.children[0].end);
                0 <= q && q + 1 < s.len() && s[q] == '!' && s[q + 1] == '='
            }
        },
{
    lemma_lifetime(s, p);
    if let Some((e1, a)) = within(s, p, spec_lifetime(s, p)) {
        let q = ws(s, e1);
        if let Some(p2) = ch2(s, q, '<', '=') {
            lemma_lifetime(s, ws(s, p2));
        }
        if let Some(p2) = ch2(s, q, '!', '=') {
            lemma_lifetime(s, ws(s, p2));
        }
    }
}

} // verus!
