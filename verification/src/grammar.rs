//! The qurts grammar, stated as parsing-expression semantics over the
//! characters of a source text.
//!
//! Every rule is a function from a start position to either failure or the
//! position right after the text it matched together with the node it
//! built. Between the elements of a rule any amount of whitespace and
//! `//` line comments may stand; leading whitespace is the caller's business.
use vstd::prelude::*;

use crate::tree::{SPair, leaf, node};

verus! {

/// The rules of the grammar; each parse-tree node carries the rule that built it.
#[allow(non_camel_case_types)]
#[derive(Clone, Copy, Debug, PartialEq, Eq, Structural)]
pub enum Rule {
    EOI,
    program,
    function,
    signature,
    lifetime_preorder,
    lifetime_le,
    lifetime_neq,
    param_list,
    param,
    ty,
    bool_ty,
    qbit_ty,
    unit_ty,
    product_ty,
    ref_ty,
    unique_ty,
    lifetime,
    lifetime_static,
    lifetime_empty,
    lifetime_var,
    block,
    stmt,
    let_stmt,
    borrow_stmt,
    newlft_stmt,
    endlft_stmt,
    expr_stmt,
    expr,
    if_expr,
    qif_expr,
    lit_bool,
    lit_unit,
    tuple_expr,
    meas_expr,
    unitary_expr,
    gate,
    lifted_expr,
    qstate,
    call_expr,
    arg_list,
    ident,
}

/// Words of the language: keywords, and the names of the built-in gates.
#[derive(Clone, Copy, Debug, PartialEq, Eq, Structural)]
pub enum Word {
    Fn,
    Let,
    If,
    Else,
    Qif,
    Newlft,
    Endlft,
    True,
    False,
    Meas,
    Bool,
    Qbit,
    Static,
    GateH,
    GateX,
    GateY,
    GateZ,
    GateS,
    GateT,
    GateCx,
    GateCnot,
}

pub open spec fn word(w: Word) -> Seq<char> {
    match w {
        Word::Fn => seq!['f', 'n'],
        Word::Let => seq!['l', 'e', 't'],
        Word::If => seq!['i', 'f'],
        Word::Else => seq!['e', 'l', 's', 'e'],
        Word::Qif => seq!['q', 'i', 'f'],
        Word::Newlft => seq!['n', 'e', 'w', 'l', 'f', 't'],
        Word::Endlft => seq!['e', 'n', 'd', 'l', 'f', 't'],
        Word::True => seq!['t', 'r', 'u', 'e'],
        Word::False => seq!['f', 'a', 'l', 's', 'e'],
        Word::Meas => seq!['m', 'e', 'a', 's'],
        Word::Bool => seq!['b', 'o', 'o', 'l'],
        Word::Qbit => seq!['q', 'b', 'i', 't'],
        Word::Static => seq!['s', 't', 'a', 't', 'i', 'c'],
        Word::GateH => seq!['H'],
        Word::GateX => seq!['X'],
        Word::GateY => seq!['Y'],
        Word::GateZ => seq!['Z'],
        Word::GateS => seq!['S'],
        Word::GateT => seq!['T'],
        Word::GateCx => seq!['C', 'X'],
        Word::GateCnot => seq!['C', 'N', 'O', 'T'],
    }
}

/// Reserved words, which no identifier may be.
pub open spec fn is_keyword(w: Seq<char>) -> bool {
    ||| w == word(Word::Fn)
    ||| w == word(Word::Let)
    ||| w == word(Word::If)
    ||| w == word(Word::Else)
    ||| w == word(Word::Qif)
    ||| w == word(Word::Newlft)
    ||| w == word(Word::Endlft)
    ||| w == word(Word::True)
    ||| w == word(Word::False)
    ||| w == word(Word::Meas)
    ||| w == word(Word::Bool)
    ||| w == word(Word::Qbit)
}

pub open spec fn is_alpha(c: char) -> bool {
    (65 <= (c as u32) <= 90) || (97 <= (c as u32) <= 122)
}

pub open spec fn is_digit(c: char) -> bool {
    48 <= (c as u32) <= 57
}

pub open spec fn is_ident_start(c: char) -> bool {
    is_alpha(c) || c == '_'
}

pub open spec fn is_ident_char(c: char) -> bool {
    is_alpha(c) || is_digit(c) || c == '_'
}

pub open spec fn is_space(c: char) -> bool {
    c == ' ' || c == '\t' || c == '\n' || c == '\r'
}

/// Skips whitespace and `//` comments (a comment runs to the end of its line).
pub open spec fn skip_ws(s: Seq<char>, p: int, in_comment: bool) -> int
    decreases s.len() - p,
{
    if 0 <= p < s.len() {
        if in_comment {
            skip_ws(s, p + 1, s[p] != '\n')
        } else if is_space(s[p]) {
            skip_ws(s, p + 1, false)
        } else if s[p] == '/' && p + 1 < s.len() && s[p + 1] == '/' {
            skip_ws(s, p + 1, true)
        } else {
            p
        }
    } else {
        p
    }
}

/// The position of the next token at or after `p`.
pub open spec fn ws(s: Seq<char>, p: int) -> int {
    let r = skip_ws(s, p, false);
    if p <= r && r <= s.len() {
        r
    } else {
        p
    }
}

/// The end of a run of identifier characters starting at `p`.
pub open spec fn scan_ident(s: Seq<char>, p: int) -> int
    decreases s.len() - p,
{
    if 0 <= p < s.len() && is_ident_char(s[p]) {
        scan_ident(s, p + 1)
    } else {
        p
    }
}

/// `word` at `p`, not followed by an identifier character.
pub open spec fn kw(s: Seq<char>, p: int, w: Word) -> Option<int> {
    let n = word(w).len();
    if 0 <= p && p + n <= s.len() && s.subrange(p, p + n) == word(w) && !(p + n < s.len()
        && is_ident_char(s[p + n])) {
        Some(p + n)
    } else {
        None
    }
}

/// The single character `c` at `p`.
pub open spec fn ch(s: Seq<char>, p: int, c: char) -> Option<int> {
    if 0 <= p < s.len() && s[p] == c {
        Some(p + 1)
    } else {
        None
    }
}

/// The two characters `c1 c2` at `p`.
pub open spec fn ch2(s: Seq<char>, p: int, c1: char, c2: char) -> Option<int> {
    if 0 <= p && p + 1 < s.len() && s[p] == c1 && s[p + 1] == c2 {
        Some(p + 2)
    } else {
        None
    }
}

/// Keeps a sub-result only when it ends between its start `q` and the end of the text.
pub open spec fn within(s: Seq<char>, q: int, r: Option<(int, SPair)>) -> Option<(int, SPair)> {
    match r {
        Some((e, n)) => if q <= e <= s.len() {
            Some((e, n))
        } else {
            None
        },
        None => None,
    }
}

/// `e` when it lies between `q` and the end of the text, else `q`.
pub open spec fn clamp(s: Seq<char>, q: int, e: int) -> int {
    if q <= e <= s.len() {
        e
    } else {
        q
    }
}

// ---------------------------------------------------------------- tokens

pub open spec fn spec_ident(s: Seq<char>, p: int) -> Option<(int, SPair)> {
    if 0 <= p < s.len() && is_ident_start(s[p]) {
        let e = scan_ident(s, p + 1);
        if is_keyword(s.subrange(p, e)) {
            None
        } else {
            Some((e, leaf(Rule::ident, p, e)))
        }
    } else {
        None
    }
}

pub open spec fn spec_lifetime_static(s: Seq<char>, p: int) -> Option<(int, SPair)> {
    match kw(s, p, Word::Static) {
        Some(e) => Some((e, leaf(Rule::lifetime_static, p, e))),
        None => None,
    }
}

pub open spec fn spec_lifetime_empty(s: Seq<char>, p: int) -> Option<(int, SPair)> {
    match ch(s, p, '0') {
        Some(e) => Some((e, leaf(Rule::lifetime_empty, p, e))),
        None => None,
    }
}

pub open spec fn spec_lifetime_var(s: Seq<char>, p: int) -> Option<(int, SPair)> {
    if 0 <= p < s.len() && is_ident_start(s[p]) {
        let e = scan_ident(s, p + 1);
        Some((e, leaf(Rule::lifetime_var, p, e)))
    } else {
        None
    }
}

/// `'static`, `'0`, or `'name`, written without inner whitespace.
pub open spec fn spec_lifetime(s: Seq<char>, p: int) -> Option<(int, SPair)> {
    match ch(s, p, '\'') {
        None => None,
        Some(p1) => {
            let inner = match spec_lifetime_static(s, p1) {
                Some(r) => Some(r),
                None => match spec_lifetime_empty(s, p1) {
                    Some(r) => Some(r),
                    None => spec_lifetime_var(s, p1),
                },
            };
            match inner {
                Some((e, v)) => Some((e, node(Rule::lifetime, p, e, seq![v]))),
                None => None,
            }
        },
    }
}

pub open spec fn spec_gate_word(s: Seq<char>, p: int) -> Option<int> {
    match kw(s, p, Word::GateCnot) {
        Some(e) => Some(e),
        None => match kw(s, p, Word::GateCx) {
            Some(e) => Some(e),
            None => match kw(s, p, Word::GateH) {
                Some(e) => Some(e),
                None => match kw(s, p, Word::GateX) {
                    Some(e) => Some(e),
                    None => match kw(s, p, Word::GateY) {
                        Some(e) => Some(e),
                        None => match kw(s, p, Word::GateZ) {
                            Some(e) => Some(e),
                            None => match kw(s, p, Word::GateS) {
                                Some(e) => Some(e),
                                None => kw(s, p, Word::GateT),
                            },
                        },
                    },
                },
            },
        },
    }
}

pub open spec fn spec_gate(s: Seq<char>, p: int) -> Option<(int, SPair)> {
    match spec_gate_word(s, p) {
        Some(e) => Some((e, leaf(Rule::gate, p, e))),
        None => None,
    }
}

pub open spec fn spec_qstate(s: Seq<char>, p: int) -> Option<(int, SPair)> {
    match ch(s, p, '0') {
        Some(e) => Some((e, leaf(Rule::qstate, p, e))),
        None => match ch(s, p, '1') {
            Some(e) => Some((e, leaf(Rule::qstate, p, e))),
            None => None,
        },
    }
}

pub open spec fn spec_lit_bool(s: Seq<char>, p: int) -> Option<(int, SPair)> {
    match kw(s, p, Word::True) {
        Some(e) => Some((e, leaf(Rule::lit_bool, p, e))),
        None => match kw(s, p, Word::False) {
            Some(e) => Some((e, leaf(Rule::lit_bool, p, e))),
            None => None,
        },
    }
}

/// `(` `)` with optional whitespace between.
pub open spec fn spec_parens(s: Seq<char>, p: int) -> Option<int> {
    match ch(s, p, '(') {
        Some(p1) => ch(s, ws(s, p1), ')'),
        None => None,
    }
}

pub open spec fn spec_lit_unit(s: Seq<char>, p: int) -> Option<(int, SPair)> {
    match spec_parens(s, p) {
        Some(e) => Some((e, leaf(Rule::lit_unit, p, e))),
        None => None,
    }
}

pub open spec fn spec_unit_ty(s: Seq<char>, p: int) -> Option<(int, SPair)> {
    match spec_parens(s, p) {
        Some(e) => Some((e, leaf(Rule::unit_ty, p, e))),
        None => None,
    }
}

pub open spec fn spec_bool_ty(s: Seq<char>, p: int) -> Option<(int, SPair)> {
    match kw(s, p, Word::Bool) {
        Some(e) => Some((e, leaf(Rule::bool_ty, p, e))),
        None => None,
    }
}

pub open spec fn spec_qbit_ty(s: Seq<char>, p: int) -> Option<(int, SPair)> {
    match kw(s, p, Word::Qbit) {
        Some(e) => Some((e, leaf(Rule::qbit_ty, p, e))),
        None => None,
    }
}

// ---------------------------------------------------------------- types

pub open spec fn spec_ty(s: Seq<char>, p: int) -> Option<(int, SPair)>
    decreases s.len() - p, 2int,
{
    let alt = match spec_bool_ty(s, p) {
        Some(r) => Some(r),
        None => match spec_qbit_ty(s, p) {
            Some(r) => Some(r),
            None => match spec_unit_ty(s, p) {
                Some(r) => Some(r),
                None => match spec_product_ty(s, p) {
                    Some(r) => Some(r),
                    None => match spec_ref_ty(s, p) {
                        Some(r) => Some(r),
                        None => spec_unique_ty(s, p),
                    },
                },
            },
        },
    };
    match alt {
        Some((e, c)) => Some((e, node(Rule::ty, p, e, seq![c]))),
        None => None,
    }
}

/// `(` ty `,` ty `)`
pub open spec fn spec_product_ty(s: Seq<char>, p: int) -> Option<(int, SPair)>
    decreases s.len() - p, 1int,
{
    match ch(s, p, '(') {
        None => None,
        Some(p1) => {
            let q1 = ws(s, p1);
            match within(s, q1, spec_ty(s, q1)) {
                None => None,
                Some((e1, a)) => match ch(s, ws(s, e1), ',') {
                    None => None,
                    Some(p2) => {
                        let q2 = ws(s, p2);
                        match within(s, q2, spec_ty(s, q2)) {
                            None => None,
                            Some((e2, b)) => match ch(s, ws(s, e2), ')') {
                                None => None,
                                Some(e) => Some((e, node(Rule::product_ty, p, e, seq![a, b]))),
                            },
                        }
                    },
                },
            }
        },
    }
}

/// `&` lifetime ty (when `sigil` is `&`), or `#` lifetime ty.
pub open spec fn spec_sigil_ty(s: Seq<char>, p: int, sigil: char, rule: Rule) -> Option<(int, SPair)>
    decreases s.len() - p, 0int,
{
    match ch(s, p, sigil) {
        None => None,
        Some(p1) => {
            let q1 = ws(s, p1);
            match within(s, q1, spec_lifetime(s, q1)) {
                None => None,
                Some((e1, lt)) => {
                    let q2 = ws(s, e1);
                    match within(s, q2, spec_ty(s, q2)) {
                        None => None,
                        Some((e, t)) => Some((e, node(rule, p, e, seq![lt, t]))),
                    }
                },
            }
        },
    }
}

pub open spec fn spec_ref_ty(s: Seq<char>, p: int) -> Option<(int, SPair)>
    decreases s.len() - p, 1int,
{
    spec_sigil_ty(s, p, '&', Rule::ref_ty)
}

pub open spec fn spec_unique_ty(s: Seq<char>, p: int) -> Option<(int, SPair)>
    decreases s.len() - p, 1int,
{
    spec_sigil_ty(s, p, '#', Rule::unique_ty)
}


// ---------------------------------------------------------------- expressions, blocks, statements

/// An expression: the first of its alternatives that matches.
pub open spec fn spec_expr(s: Seq<char>, p: int) -> Option<(int, SPair)>
    decreases s.len() - p, 2int,
{
    let alt = match spec_if_expr(s, p) {
        Some(r) => Some(r),
        None => match spec_qif_expr(s, p) {
            Some(r) => Some(r),
            None => match spec_block(s, p) {
                Some(r) => Some(r),
                None => match spec_lit_bool(s, p) {
                    Some(r) => Some(r),
                    None => match spec_lit_unit(s, p) {
                        Some(r) => Some(r),
                        None => match spec_tuple_expr(s, p) {
                            Some(r) => Some(r),
                            None => match spec_meas_expr(s, p) {
                                Some(r) => Some(r),
                                None => match spec_unitary_expr(s, p) {
                                    Some(r) => Some(r),
                                    None => match spec_lifted_expr(s, p) {
                                        Some(r) => Some(r),
                                        None => match spec_call_expr(s, p) {
                                            Some(r) => Some(r),
                                            None => spec_ident(s, p),
                                        },
                                    },
                                },
                            },
                        },
                    },
                },
            },
        },
    };
    match alt {
        Some((e, c)) => Some((e, node(Rule::expr, p, e, seq![c]))),
        None => None,
    }
}

/// `if` expr block (`else` block)?
pub open spec fn spec_if_expr(s: Seq<char>, p: int) -> Option<(int, SPair)>
    decreases s.len() - p, 1int,
{
    match kw(s, p, Word::If) {
        None => None,
        Some(p1) => {
            let q1 = ws(s, p1);
            match within(s, q1, spec_expr(s, q1)) {
                None => None,
                Some((e1, c)) => {
                    let q2 = ws(s, e1);
                    match within(s, q2, spec_block(s, q2)) {
                        None => None,
                        Some((e2, t)) => match kw(s, ws(s, e2), Word::Else) {
                            None => Some((e2, node(Rule::if_expr, p, e2, seq![c, t]))),
                            Some(p3) => {
                                let q3 = ws(s, p3);
                                match within(s, q3, spec_block(s, q3)) {
                                    None => Some((e2, node(Rule::if_expr, p, e2, seq![c, t]))),
                                    Some((e, f)) => Some(
                                        (e, node(Rule::if_expr, p, e, seq![c, t, f])),
                                    ),
                                }
                            },
                        },
                    }
                },
            }
        },
    }
}

/// `qif` ident block `else` block
pub open spec fn spec_qif_expr(s: Seq<char>, p: int) -> Option<(int, SPair)>
    decreases s.len() - p, 1int,
{
    match kw(s, p, Word::Qif) {
        None => None,
        Some(p1) => {
            let q1 = ws(s, p1);
            match within(s, q1, spec_ident(s, q1)) {
                None => None,
                Some((e1, c)) => {
                    let q2 = ws(s, e1);
                    match within(s, q2, spec_block(s, q2)) {
                        None => None,
                        Some((e2, t)) => match kw(s, ws(s, e2), Word::Else) {
                            None => None,
                            Some(p3) => {
                                let q3 = ws(s, p3);
                                match within(s, q3, spec_block(s, q3)) {
                                    None => None,
                                    Some((e, f)) => Some(
                                        (e, node(Rule::qif_expr, p, e, seq![c, t, f])),
                                    ),
                                }
                            },
                        },
                    }
                },
            }
        },
    }
}

/// `(` expr `,` expr `)`
pub open spec fn spec_tuple_expr(s: Seq<char>, p: int) -> Option<(int, SPair)>
    decreases s.len() - p, 1int,
{
    match ch(s, p, '(') {
        None => None,
        Some(p1) => {
            let q1 = ws(s, p1);
            match within(s, q1, spec_expr(s, q1)) {
                None => None,
                Some((e1, a)) => match ch(s, ws(s, e1), ',') {
                    None => None,
                    Some(p2) => {
                        let q2 = ws(s, p2);
                        match within(s, q2, spec_expr(s, q2)) {
                            None => None,
                            Some((e2, b)) => match ch(s, ws(s, e2), ')') {
                                None => None,
                                Some(e) => Some((e, node(Rule::tuple_expr, p, e, seq![a, b]))),
                            },
                        }
                    },
                },
            }
        },
    }
}

/// `meas` `(` expr `)`
pub open spec fn spec_meas_expr(s: Seq<char>, p: int) -> Option<(int, SPair)>
    decreases s.len() - p, 1int,
{
    match kw(s, p, Word::Meas) {
        None => None,
        Some(p1) => match ch(s, ws(s, p1), '(') {
            None => None,
            Some(p2) => {
                let q2 = ws(s, p2);
                match within(s, q2, spec_expr(s, q2)) {
                    None => None,
                    Some((e1, x)) => match ch(s, ws(s, e1), ')') {
                        None => None,
                        Some(e) => Some((e, node(Rule::meas_expr, p, e, seq![x]))),
                    },
                }
            },
        },
    }
}

/// gate arg_list
pub open spec fn spec_unitary_expr(s: Seq<char>, p: int) -> Option<(int, SPair)>
    decreases s.len() - p, 1int,
{
    match within(s, p, spec_gate(s, p)) {
        None => None,
        Some((e1, g)) => if e1 > p {
            let q1 = ws(s, e1);
            match within(s, q1, spec_arg_list(s, q1)) {
                None => None,
                Some((e, a)) => Some((e, node(Rule::unitary_expr, p, e, seq![g, a]))),
            }
        } else {
            None
        },
    }
}

/// `[` (qstate | ident) `]` arg_list
pub open spec fn spec_lifted_expr(s: Seq<char>, p: int) -> Option<(int, SPair)>
    decreases s.len() - p, 1int,
{
    match ch(s, p, '[') {
        None => None,
        Some(p1) => {
            let q1 = ws(s, p1);
            let target = match spec_qstate(s, q1) {
                Some(r) => Some(r),
                None => spec_ident(s, q1),
            };
            match within(s, q1, target) {
                None => None,
                Some((e1, t)) => match ch(s, ws(s, e1), ']') {
                    None => None,
                    Some(p2) => {
                        let q2 = ws(s, p2);
                        match within(s, q2, spec_arg_list(s, q2)) {
                            None => None,
                            Some((e, a)) => Some((e, node(Rule::lifted_expr, p, e, seq![t, a]))),
                        }
                    },
                },
            }
        },
    }
}

/// ident arg_list
pub open spec fn spec_call_expr(s: Seq<char>, p: int) -> Option<(int, SPair)>
    decreases s.len() - p, 1int,
{
    match within(s, p, spec_ident(s, p)) {
        None => None,
        Some((e1, f)) => if e1 > p {
            let q1 = ws(s, e1);
            match within(s, q1, spec_arg_list(s, q1)) {
                None => None,
                Some((e, a)) => Some((e, node(Rule::call_expr, p, e, seq![f, a]))),
            }
        } else {
            None
        },
    }
}

/// `(` (expr (`,` expr)*)? `)`
pub open spec fn spec_arg_list(s: Seq<char>, p: int) -> Option<(int, SPair)>
    decreases s.len() - p, 1int,
{
    match ch(s, p, '(') {
        None => None,
        Some(p1) => {
            let q1 = ws(s, p1);
            match within(s, q1, spec_expr(s, q1)) {
                None => match ch(s, q1, ')') {
                    None => None,
                    Some(e) => Some((e, node(Rule::arg_list, p, e, seq![]))),
                },
                Some((e1, x)) => {
                    let (e2, rest) = spec_more_args(s, e1);
                    match ch(s, ws(s, e2), ')') {
                        None => None,
                        Some(e) => Some((e, node(Rule::arg_list, p, e, seq![x] + rest))),
                    }
                },
            }
        },
    }
}

/// (`,` expr)* after an argument that ends at `p`; gives the end of the last
/// argument and the arguments matched.
pub open spec fn spec_more_args(s: Seq<char>, p: int) -> (int, Seq<SPair>)
    decreases s.len() - p, 1int,
{
    match ch(s, ws(s, p), ',') {
        None => (p, seq![]),
        Some(p1) => {
            let q1 = ws(s, p1);
            match within(s, q1, spec_expr(s, q1)) {
                None => (p, seq![]),
                Some((e1, x)) => {
                    let (e2, rest) = spec_more_args(s, e1);
                    (e2, seq![x] + rest)
                },
            }
        },
    }
}

/// `{` stmt* expr? `}`
pub open spec fn spec_block(s: Seq<char>, p: int) -> Option<(int, SPair)>
    decreases s.len() - p, 1int,
{
    match ch(s, p, '{') {
        None => None,
        Some(p1) => {
            let q1 = ws(s, p1);
            let (e1, stmts) = spec_stmts(s, q1);
            let q2 = ws(s, clamp(s, q1, e1));
            match within(s, q2, spec_expr(s, q2)) {
                None => match ch(s, q2, '}') {
                    None => None,
                    Some(e) => Some((e, node(Rule::block, p, e, stmts))),
                },
                Some((e2, x)) => match ch(s, ws(s, e2), '}') {
                    None => None,
                    Some(e) => Some((e, node(Rule::block, p, e, stmts.push(x)))),
                },
            }
        },
    }
}

/// stmt* from `p`: the end of the last statement (`p` when there is none) and
/// the statements matched.
pub open spec fn spec_stmts(s: Seq<char>, p: int) -> (int, Seq<SPair>)
    decreases s.len() - p, 5int,
{
    match within(s, p, spec_stmt(s, p)) {
        None => (p, seq![]),
        Some((e1, st)) => if e1 > p {
            let (e2, rest) = spec_stmts(s, ws(s, e1));
            (if rest.len() == 0 {
                e1
            } else {
                e2
            }, seq![st] + rest)
        } else {
            (p, seq![])
        },
    }
}

pub open spec fn spec_stmt(s: Seq<char>, p: int) -> Option<(int, SPair)>
    decreases s.len() - p, 4int,
{
    let alt = match spec_let_stmt(s, p) {
        Some(r) => Some(r),
        None => match spec_borrow_stmt(s, p) {
            Some(r) => Some(r),
            None => match spec_newlft_stmt(s, p) {
                Some(r) => Some(r),
                None => match spec_endlft_stmt(s, p) {
                    Some(r) => Some(r),
                    None => spec_expr_stmt(s, p),
                },
            },
        },
    };
    match alt {
        Some((e, c)) => Some((e, node(Rule::stmt, p, e, seq![c]))),
        None => None,
    }
}

/// `let` ident `:` ty `=` expr `;`
pub open spec fn spec_let_stmt(s: Seq<char>, p: int) -> Option<(int, SPair)>
    decreases s.len() - p, 3int,
{
    match kw(s, p, Word::Let) {
        None => None,
        Some(p1) => {
            let q1 = ws(s, p1);
            match within(s, q1, spec_ident(s, q1)) {
                None => None,
                Some((e1, name)) => match ch(s, ws(s, e1), ':') {
                    None => None,
                    Some(p2) => {
                        let q2 = ws(s, p2);
                        match within(s, q2, spec_ty(s, q2)) {
                            None => None,
                            Some((e2, t)) => match ch(s, ws(s, e2), '=') {
                                None => None,
                                Some(p3) => {
                                    let q3 = ws(s, p3);
                                    match within(s, q3, spec_expr(s, q3)) {
                                        None => None,
                                        Some((e3, x)) => match ch(s, ws(s, e3), ';') {
                                            None => None,
                                            Some(e) => Some(
                                                (e, node(Rule::let_stmt, p, e, seq![name, t, x])),
                                            ),
                                        },
                                    }
                                },
                            },
                        }
                    },
                },
            }
        },
    }
}

/// `let` ident `=` `&` lifetime ident `;`
pub open spec fn spec_borrow_stmt(s: Seq<char>, p: int) -> Option<(int, SPair)> {
    match kw(s, p, Word::Let) {
        None => None,
        Some(p1) => {
            let q1 = ws(s, p1);
            match within(s, q1, spec_ident(s, q1)) {
                None => None,
                Some((e1, name)) => match ch(s, ws(s, e1), '=') {
                    None => None,
                    Some(p2) => match ch(s, ws(s, p2), '&') {
                        None => None,
                        Some(p3) => {
                            let q3 = ws(s, p3);
                            match within(s, q3, spec_lifetime(s, q3)) {
                                None => None,
                                Some((e3, lt)) => {
                                    let q4 = ws(s, e3);
                                    match within(s, q4, spec_ident(s, q4)) {
                                        None => None,
                                        Some((e4, src)) => match ch(s, ws(s, e4), ';') {
                                            None => None,
                                            Some(e) => Some(
                                                (
                                                    e,
                                                    node(
                                                        Rule::borrow_stmt,
                                                        p,
                                                        e,
                                                        seq![name, lt, src],
                                                    ),
                                                ),
                                            ),
                                        },
                                    }
                                },
                            }
                        },
                    },
                },
            }
        },
    }
}

/// `newlft` lifetime `;` (when `w` is `newlft`), or `endlft` lifetime `;`.
pub open spec fn spec_lifetime_stmt(s: Seq<char>, p: int, w: Word, rule: Rule) -> Option<
    (int, SPair),
> {
    match kw(s, p, w) {
        None => None,
        Some(p1) => {
            let q1 = ws(s, p1);
            match within(s, q1, spec_lifetime(s, q1)) {
                None => None,
                Some((e1, lt)) => match ch(s, ws(s, e1), ';') {
                    None => None,
                    Some(e) => Some((e, node(rule, p, e, seq![lt]))),
                },
            }
        },
    }
}

pub open spec fn spec_newlft_stmt(s: Seq<char>, p: int) -> Option<(int, SPair)> {
    spec_lifetime_stmt(s, p, Word::Newlft, Rule::newlft_stmt)
}

pub open spec fn spec_endlft_stmt(s: Seq<char>, p: int) -> Option<(int, SPair)> {
    spec_lifetime_stmt(s, p, Word::Endlft, Rule::endlft_stmt)
}

/// expr `;`
pub open spec fn spec_expr_stmt(s: Seq<char>, p: int) -> Option<(int, SPair)>
    decreases s.len() - p, 3int,
{
    match within(s, p, spec_expr(s, p)) {
        None => None,
        Some((e1, x)) => match ch(s, ws(s, e1), ';') {
            None => None,
            Some(e) => Some((e, node(Rule::expr_stmt, p, e, seq![x]))),
        },
    }
}


// ---------------------------------------------------------------- functions

/// lifetime `<=` lifetime
pub open spec fn spec_lifetime_pair(s: Seq<char>, p: int, c1: char, rule: Rule) -> Option<(int, SPair)> {
    match within(s, p, spec_lifetime(s, p)) {
        None => None,
        Some((e1, a)) => match ch2(s, ws(s, e1), c1, '=') {
            None => None,
            Some(p2) => {
                let q2 = ws(s, p2);
                match within(s, q2, spec_lifetime(s, q2)) {
                    None => None,
                    Some((e, b)) => Some((e, node(rule, p, e, seq![a, b]))),
                }
            },
        },
    }
}

pub open spec fn spec_lifetime_le(s: Seq<char>, p: int) -> Option<(int, SPair)> {
    spec_lifetime_pair(s, p, '<', Rule::lifetime_le)
}

pub open spec fn spec_lifetime_neq(s: Seq<char>, p: int) -> Option<(int, SPair)> {
    spec_lifetime_pair(s, p, '!', Rule::lifetime_neq)
}

/// One entry of a lifetime preorder: a constraint, or a lifetime alone.
pub open spec fn spec_preorder_item(s: Seq<char>, p: int) -> Option<(int, SPair)> {
    match spec_lifetime_le(s, p) {
        Some(r) => Some(r),
        None => match spec_lifetime_neq(s, p) {
            Some(r) => Some(r),
            None => spec_lifetime(s, p),
        },
    }
}

/// (`,` item)* after an item that ends at `p`.
pub open spec fn spec_more_items(s: Seq<char>, p: int) -> (int, Seq<SPair>)
    decreases s.len() - p,
{
    match ch(s, ws(s, p), ',') {
        None => (p, seq![]),
        Some(p1) => {
            let q1 = ws(s, p1);
            match within(s, q1, spec_preorder_item(s, q1)) {
                None => (p, seq![]),
                Some((e1, x)) => {
                    let (e2, rest) = spec_more_items(s, e1);
                    (e2, seq![x] + rest)
                },
            }
        },
    }
}

/// `<` item (`,` item)* `>`
pub open spec fn spec_lifetime_preorder(s: Seq<char>, p: int) -> Option<(int, SPair)> {
    match ch(s, p, '<') {
        None => None,
        Some(p1) => {
            let q1 = ws(s, p1);
            match within(s, q1, spec_preorder_item(s, q1)) {
                None => None,
                Some((e1, x)) => {
                    let (e2, rest) = spec_more_items(s, e1);
                    match ch(s, ws(s, e2), '>') {
                        None => None,
                        Some(e) => Some((e, node(Rule::lifetime_preorder, p, e, seq![x] + rest))),
                    }
                },
            }
        },
    }
}

/// ident `:` ty
pub open spec fn spec_param(s: Seq<char>, p: int) -> Option<(int, SPair)> {
    match within(s, p, spec_ident(s, p)) {
        None => None,
        Some((e1, name)) => match ch(s, ws(s, e1), ':') {
            None => None,
            Some(p2) => {
                let q2 = ws(s, p2);
                match within(s, q2, spec_ty(s, q2)) {
                    None => None,
                    Some((e, t)) => Some((e, node(Rule::param, p, e, seq![name, t]))),
                }
            },
        },
    }
}

/// (`,` param)* after a parameter that ends at `p`.
pub open spec fn spec_more_params(s: Seq<char>, p: int) -> (int, Seq<SPair>)
    decreases s.len() - p,
{
    match ch(s, ws(s, p), ',') {
        None => (p, seq![]),
        Some(p1) => {
            let q1 = ws(s, p1);
            match within(s, q1, spec_param(s, q1)) {
                None => (p, seq![]),
                Some((e1, x)) => {
                    let (e2, rest) = spec_more_params(s, e1);
                    (e2, seq![x] + rest)
                },
            }
        },
    }
}

/// `(` (param (`,` param)*)? `)`
pub open spec fn spec_param_list(s: Seq<char>, p: int) -> Option<(int, SPair)> {
    match ch(s, p, '(') {
        None => None,
        Some(p1) => {
            let q1 = ws(s, p1);
            match within(s, q1, spec_param(s, q1)) {
                None => match ch(s, q1, ')') {
                    None => None,
                    Some(e) => Some((e, node(Rule::param_list, p, e, seq![]))),
                },
                Some((e1, x)) => {
                    let (e2, rest) = spec_more_params(s, e1);
                    match ch(s, ws(s, e2), ')') {
                        None => None,
                        Some(e) => Some((e, node(Rule::param_list, p, e, seq![x] + rest))),
                    }
                },
            }
        },
    }
}

/// lifetime_preorder? param_list `->` ty
pub open spec fn spec_signature(s: Seq<char>, p: int) -> Option<(int, SPair)> {
    let (q1, pre) = match within(s, p, spec_lifetime_preorder(s, p)) {
        Some((e0, lp)) => (ws(s, e0), seq![lp]),
        None => (p, seq![]),
    };
    match within(s, q1, spec_param_list(s, q1)) {
        None => None,
        Some((e1, params)) => match ch2(s, ws(s, e1), '-', '>') {
            None => None,
            Some(p2) => {
                let q2 = ws(s, p2);
                match within(s, q2, spec_ty(s, q2)) {
                    None => None,
                    Some((e, t)) => Some(
                        (e, node(Rule::signature, p, e, pre + seq![params, t])),
                    ),
                }
            },
        },
    }
}

/// `fn` ident signature block
pub open spec fn spec_function(s: Seq<char>, p: int) -> Option<(int, SPair)> {
    match kw(s, p, Word::Fn) {
        None => None,
        Some(p1) => {
            let q1 = ws(s, p1);
            match within(s, q1, spec_ident(s, q1)) {
                None => None,
                Some((e1, name)) => {
                    let q2 = ws(s, e1);
                    match within(s, q2, spec_signature(s, q2)) {
                        None => None,
                        Some((e2, sig)) => {
                            let q3 = ws(s, e2);
                            match within(s, q3, spec_block(s, q3)) {
                                None => None,
                                Some((e, body)) => Some(
                                    (e, node(Rule::function, p, e, seq![name, sig, body])),
                                ),
                            }
                        },
                    }
                },
            }
        },
    }
}

/// function* from `p`: the end of the last function (`p` when there is none)
/// and the functions matched.
pub open spec fn spec_functions(s: Seq<char>, p: int) -> (int, Seq<SPair>)
    decreases s.len() - p,
{
    match within(s, p, spec_function(s, p)) {
        None => (p, seq![]),
        Some((e1, f)) => if e1 > p {
            let (e2, rest) = spec_functions(s, ws(s, e1));
            (if rest.len() == 0 {
                e1
            } else {
                e2
            }, seq![f] + rest)
        } else {
            (p, seq![])
        },
    }
}

/// A whole program: the functions of the text, which must be followed by
/// nothing but whitespace, then an `EOI` node at the end of the text. On
/// failure, the position where neither a function nor the end was found.
pub open spec fn spec_program(s: Seq<char>) -> Result<Seq<SPair>, int> {
    let q0 = ws(s, 0);
    let (e, fns) = spec_functions(s, q0);
    let q = ws(s, clamp(s, q0, e));
    if q == s.len() {
        Ok(fns.push(leaf(Rule::EOI, s.len() as int, s.len() as int)))
    } else {
        Err(q)
    }
}

/// `EOI`: the end of the text.
pub open spec fn spec_eoi(s: Seq<char>, p: int) -> Option<(int, SPair)> {
    if p == s.len() {
        Some((p, leaf(Rule::EOI, p, p)))
    } else {
        None
    }
}

/// The single rule `rule` matched at `p`.
pub open spec fn spec_rule(rule: Rule, s: Seq<char>, p: int) -> Option<(int, SPair)> {
    match rule {
        Rule::EOI => spec_eoi(s, p),
        Rule::program => None,
        Rule::function => spec_function(s, p),
        Rule::signature => spec_signature(s, p),
        Rule::lifetime_preorder => spec_lifetime_preorder(s, p),
        Rule::lifetime_le => spec_lifetime_le(s, p),
        Rule::lifetime_neq => spec_lifetime_neq(s, p),
        Rule::param_list => spec_param_list(s, p),
        Rule::param => spec_param(s, p),
        Rule::ty => spec_ty(s, p),
        Rule::bool_ty => spec_bool_ty(s, p),
        Rule::qbit_ty => spec_qbit_ty(s, p),
        Rule::unit_ty => spec_unit_ty(s, p),
        Rule::product_ty => spec_product_ty(s, p),
        Rule::ref_ty => spec_ref_ty(s, p),
        Rule::unique_ty => spec_unique_ty(s, p),
        Rule::lifetime => spec_lifetime(s, p),
        Rule::lifetime_static => spec_lifetime_static(s, p),
        Rule::lifetime_empty => spec_lifetime_empty(s, p),
        Rule::lifetime_var => spec_lifetime_var(s, p),
        Rule::block => spec_block(s, p),
        Rule::stmt => spec_stmt(s, p),
        Rule::let_stmt => spec_let_stmt(s, p),
        Rule::borrow_stmt => spec_borrow_stmt(s, p),
        Rule::newlft_stmt => spec_newlft_stmt(s, p),
        Rule::endlft_stmt => spec_endlft_stmt(s, p),
        Rule::expr_stmt => spec_expr_stmt(s, p),
        Rule::expr => spec_expr(s, p),
        Rule::if_expr => spec_if_expr(s, p),
        Rule::qif_expr => spec_qif_expr(s, p),
        Rule::lit_bool => spec_lit_bool(s, p),
        Rule::lit_unit => spec_lit_unit(s, p),
        Rule::tuple_expr => spec_tuple_expr(s, p),
        Rule::meas_expr => spec_meas_expr(s, p),
        Rule::unitary_expr => spec_unitary_expr(s, p),
        Rule::gate => spec_gate(s, p),
        Rule::lifted_expr => spec_lifted_expr(s, p),
        Rule::qstate => spec_qstate(s, p),
        Rule::call_expr => spec_call_expr(s, p),
        Rule::arg_list => spec_arg_list(s, p),
        Rule::ident => spec_ident(s, p),
    }
}

} // verus!
