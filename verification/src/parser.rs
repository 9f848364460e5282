//! The parser: executable matching of the grammar in `grammar`, proved to
//! build exactly the trees that the grammar describes.
use vstd::prelude::*;

use crate::grammar::{
    Rule, Word, ch, ch2, is_ident_char, is_ident_start, is_keyword, is_space, kw, scan_ident, skip_ws, spec_bool_ty, spec_lifetime_pair, spec_lifetime_le, spec_lifetime_neq, spec_preorder_item, spec_more_items, spec_lifetime_preorder, spec_param, spec_more_params, spec_param_list, spec_signature, spec_function, spec_functions, spec_program, spec_eoi, spec_rule, clamp, spec_expr, spec_if_expr, spec_qif_expr, spec_tuple_expr, spec_meas_expr, spec_unitary_expr, spec_lifted_expr, spec_call_expr, spec_arg_list, spec_more_args, spec_block, spec_stmts, spec_stmt, spec_let_stmt, spec_borrow_stmt, spec_lifetime_stmt, spec_newlft_stmt, spec_endlft_stmt, spec_expr_stmt, spec_product_ty, spec_sigil_ty, spec_ref_ty, spec_unique_ty, spec_ty, spec_gate, spec_gate_word, spec_ident, spec_lifetime, spec_lifetime_empty, spec_lifetime_static, spec_lifetime_var, spec_lit_bool, spec_lit_unit, spec_parens, spec_qbit_ty, spec_qstate, spec_unit_ty, within, word, ws,
};
use crate::tree::{Pair, SPair, leaf, node, pair_view, pairs_view, lemma_pairs_view_push};

verus! {

/// The model of a rule's result.
pub open spec fn res_view(r: Option<(usize, Pair)>) -> Option<(int, SPair)> {
    match r {
        Some((e, n)) => Some((e as int, pair_view(n))),
        None => None,
    }
}

pub fn ident_start_char(c: char) -> (b: bool)
    ensures
        b == is_ident_start(c),
{
    let u = c as u32;
    (65 <= u && u <= 90) || (97 <= u && u <= 122) || c == '_'
}

pub fn ident_char(c: char) -> (b: bool)
    ensures
        b == is_ident_char(c),
{
    let u = c as u32;
    (65 <= u && u <= 90) || (97 <= u && u <= 122) || (48 <= u && u <= 57) || c == '_'
}

fn space_char(c: char) -> (b: bool)
    ensures
        b == is_space(c),
{
    c == ' ' || c == '\t' || c == '\n' || c == '\r'
}

/// The characters of a word.
pub fn word_chars(w: Word) -> (v: Vec<char>)
    ensures
        v@ == word(w),
{
    match w {
        Word::Fn => vec!['f', 'n'],
        Word::Let => vec!['l', 'e', 't'],
        Word::If => vec!['i', 'f'],
        Word::Else => vec!['e', 'l', 's', 'e'],
        Word::Qif => vec!['q', 'i', 'f'],
        Word::Newlft => vec!['n', 'e', 'w', 'l', 'f', 't'],
        Word::Endlft => vec!['e', 'n', 'd', 'l', 'f', 't'],
        Word::True => vec!['t', 'r', 'u', 'e'],
        Word::False => vec!['f', 'a', 'l', 's', 'e'],
        Word::Meas => vec!['m', 'e', 'a', 's'],
        Word::Bool => vec!['b', 'o', 'o', 'l'],
        Word::Qbit => vec!['q', 'b', 'i', 't'],
        Word::Static => vec!['s', 't', 'a', 't', 'i', 'c'],
        Word::GateH => vec!['H'],
        Word::GateX => vec!['X'],
        Word::GateY => vec!['Y'],
        Word::GateZ => vec!['Z'],
        Word::GateS => vec!['S'],
        Word::GateT => vec!['T'],
        Word::GateCx => vec!['C', 'X'],
        Word::GateCnot => vec!['C', 'N', 'O', 'T'],
    }
}

/// The characters of a text.
pub fn chars_of(input: &str) -> (v: Vec<char>)
    ensures
        v@ == input@,
{
    let mut v: Vec<char> = Vec::new();
    for c in it: input.chars()
        invariant
            v@ == it.seq().take(it.index() as int),
    {
        v.push(c);
    }
    v
}

proof fn lemma_pairs_view_1(a: Pair)
    ensures
        pairs_view(seq![a]) == seq![pair_view(a)],
{
    assert(pairs_view(seq![a]) =~= seq![pair_view(a)]);
}

proof fn lemma_pairs_view_2(a: Pair, b: Pair)
    ensures
        pairs_view(seq![a, b]) == seq![pair_view(a), pair_view(b)],
{
    assert(pairs_view(seq![a, b]) =~= seq![pair_view(a), pair_view(b)]);
}

proof fn lemma_pairs_view_3(a: Pair, b: Pair, c: Pair)
    ensures
        pairs_view(seq![a, b, c]) == seq![pair_view(a), pair_view(b), pair_view(c)],
{
    assert(pairs_view(seq![a, b, c]) =~= seq![pair_view(a), pair_view(b), pair_view(c)]);
}

fn node1(rule: Rule, start: usize, end: usize, a: Pair) -> (p: Pair)
    ensures
        pair_view(p) == node(rule, start as int, end as int, seq![pair_view(a)]),
{
    let ghost ga = a;
    let v = vec![a];
    proof {
        assert(v@ =~= seq![ga]);
        lemma_pairs_view_1(ga);
    }
    Pair::node(rule, start, end, v)
}

fn node2(rule: Rule, start: usize, end: usize, a: Pair, b: Pair) -> (p: Pair)
    ensures
        pair_view(p) == node(rule, start as int, end as int, seq![pair_view(a), pair_view(b)]),
{
    proof {
        lemma_pairs_view_2(a, b);
    }
    Pair::node(rule, start, end, vec![a, b])
}

fn node3(rule: Rule, start: usize, end: usize, a: Pair, b: Pair, c: Pair) -> (p: Pair)
    ensures
        pair_view(p) == node(
            rule,
            start as int,
            end as int,
            seq![pair_view(a), pair_view(b), pair_view(c)],
        ),
{
    proof {
        lemma_pairs_view_3(a, b, c);
    }
    Pair::node(rule, start, end, vec![a, b, c])
}

/// A source text, held as its characters, on which the rules of the grammar run.
pub struct Scanner {
    pub text: Vec<char>,
}

impl Scanner {
    pub open spec fn s(&self) -> Seq<char> {
        self.text@
    }

    pub fn new(input: &str) -> (sc: Scanner)
        ensures
            sc.s() == input@,
    {
        Scanner { text: chars_of(input) }
    }

    pub fn ws(&self, p: usize) -> (r: usize)
        ensures
            r as int == ws(self.s(), p as int),
    {
        let n = self.text.len();
        let mut i = p;
        let mut in_comment = false;
        while i < n
            invariant
                n == self.s().len(),
                p <= i,
                skip_ws(self.s(), p as int, false) == skip_ws(self.s(), i as int, in_comment),
            ensures
                p <= i,
                skip_ws(self.s(), p as int, false) == i as int,
            decreases n - i,
        {
            let c = self.text[i];
            if in_comment {
                in_comment = c != '\n';
                i = i + 1;
            } else if space_char(c) {
                i = i + 1;
            } else if c == '/' && i + 1 < n && self.text[i + 1] == '/' {
                in_comment = true;
                i = i + 1;
            } else {
                break;
            }
        }
        if i <= n {
            i
        } else {
            p
        }
    }

    pub fn scan_ident(&self, p: usize) -> (r: usize)
        ensures
            r as int == scan_ident(self.s(), p as int),
    {
        let n = self.text.len();
        let mut i = p;
        while i < n && ident_char(self.text[i])
            invariant
                n == self.s().len(),
                scan_ident(self.s(), p as int) == scan_ident(self.s(), i as int),
            decreases n - i,
        {
            i = i + 1;
        }
        i
    }

    /// Whether `text[p..e]` is the word `w`.
    fn is_word(&self, p: usize, e: usize, w: Word) -> (b: bool)
        requires
            p <= e <= self.s().len(),
        ensures
            b == (self.s().subrange(p as int, e as int) == word(w)),
    {
        let wv = word_chars(w);
        if e - p != wv.len() {
            return false;
        }
        let mut i: usize = 0;
        while i < wv.len()
            invariant
                p <= e <= self.s().len(),
                e - p == wv@.len(),
                wv@ == word(w),
                i <= wv@.len(),
                forall|j: int| 0 <= j < i ==> self.s()[p + j] == wv@[j],
            decreases wv@.len() - i,
        {
            if self.text[p + i] != wv[i] {
                assert(self.s().subrange(p as int, e as int)[i as int] != wv@[i as int]);
                return false;
            }
            i = i + 1;
        }
        assert(self.s().subrange(p as int, e as int) =~= wv@);
        true
    }

    fn is_keyword_at(&self, p: usize, e: usize) -> (b: bool)
        requires
            p <= e <= self.s().len(),
        ensures
            b == is_keyword(self.s().subrange(p as int, e as int)),
    {
        self.is_word(p, e, Word::Fn) || self.is_word(p, e, Word::Let) || self.is_word(
            p,
            e,
            Word::If,
        ) || self.is_word(p, e, Word::Else) || self.is_word(p, e, Word::Qif) || self.is_word(
            p,
            e,
            Word::Newlft,
        ) || self.is_word(p, e, Word::Endlft) || self.is_word(p, e, Word::True) || self.is_word(
            p,
            e,
            Word::False,
        ) || self.is_word(p, e, Word::Meas) || self.is_word(p, e, Word::Bool) || self.is_word(
            p,
            e,
            Word::Qbit,
        )
    }

    pub fn kw(&self, p: usize, w: Word) -> (r: Option<usize>)
        ensures
            match r {
                Some(e) => kw(self.s(), p as int, w) == Some(e as int),
                None => kw(self.s(), p as int, w) is None,
            },
    {
        let n = self.text.len();
        let k = word_chars(w).len();
        if p > n || k > n - p {
            return None;
        }
        if !self.is_word(p, p + k, w) {
            return None;
        }
        if p + k < n && ident_char(self.text[p + k]) {
            return None;
        }
        Some(p + k)
    }

    pub fn ch(&self, p: usize, c: char) -> (r: Option<usize>)
        ensures
            match r {
                Some(e) => ch(self.s(), p as int, c) == Some(e as int),
                None => ch(self.s(), p as int, c) is None,
            },
    {
        if p < self.text.len() && self.text[p] == c {
            Some(p + 1)
        } else {
            None
        }
    }

    pub fn ch2(&self, p: usize, c1: char, c2: char) -> (r: Option<usize>)
        ensures
            match r {
                Some(e) => ch2(self.s(), p as int, c1, c2) == Some(e as int),
                None => ch2(self.s(), p as int, c1, c2) is None,
            },
    {
        if p < self.text.len() && p + 1 < self.text.len() && self.text[p] == c1 && self.text[p
            + 1] == c2 {
            Some(p + 2)
        } else {
            None
        }
    }

    pub fn within(&self, q: usize, r: Option<(usize, Pair)>) -> (out: Option<(usize, Pair)>)
        ensures
            res_view(out) == within(self.s(), q as int, res_view(r)),
            out matches Some((e, _)) ==> q <= e <= self.s().len(),
    {
        match r {
            Some((e, n)) => if q <= e && e <= self.text.len() {
                Some((e, n))
            } else {
                None
            },
            None => None,
        }
    }

    fn wrap(&self, rule: Rule, p: usize, r: Option<(usize, Pair)>) -> (out: Option<(usize, Pair)>)
        ensures
            res_view(out) == match res_view(r) {
                Some((e, c)) => Some((e, node(rule, p as int, e, seq![c]))),
                None => None,
            },
    {
        match r {
            Some((e, c)) => Some((e, node1(rule, p, e, c))),
            None => None,
        }
    }

    fn leaf_at(&self, rule: Rule, p: usize, r: Option<usize>) -> (out: Option<(usize, Pair)>)
        ensures
            res_view(out) == match r {
                Some(e) => Some((e as int, leaf(rule, p as int, e as int))),
                None => None,
            },
    {
        match r {
            Some(e) => Some((e, Pair::leaf(rule, p, e))),
            None => None,
        }
    }

    // ------------------------------------------------------------ tokens

    pub fn ident(&self, p: usize) -> (r: Option<(usize, Pair)>)
        ensures
            res_view(r) == spec_ident(self.s(), p as int),
    {
        if p < self.text.len() && ident_start_char(self.text[p]) {
            let e = self.scan_ident(p + 1);
            proof {
                lemma_scan_ident_bounds(self.s(), p + 1);
            }
            if self.is_keyword_at(p, e) {
                None
            } else {
                Some((e, Pair::leaf(Rule::ident, p, e)))
            }
        } else {
            None
        }
    }

    pub fn lifetime_static(&self, p: usize) -> (r: Option<(usize, Pair)>)
        ensures
            res_view(r) == spec_lifetime_static(self.s(), p as int),
    {
        let k = self.kw(p, Word::Static);
        self.leaf_at(Rule::lifetime_static, p, k)
    }

    pub fn lifetime_empty(&self, p: usize) -> (r: Option<(usize, Pair)>)
        ensures
            res_view(r) == spec_lifetime_empty(self.s(), p as int),
    {
        let k = self.ch(p, '0');
        self.leaf_at(Rule::lifetime_empty, p, k)
    }

    pub fn lifetime_var(&self, p: usize) -> (r: Option<(usize, Pair)>)
        ensures
            res_view(r) == spec_lifetime_var(self.s(), p as int),
    {
        if p < self.text.len() && ident_start_char(self.text[p]) {
            let e = self.scan_ident(p + 1);
            Some((e, Pair::leaf(Rule::lifetime_var, p, e)))
        } else {
            None
        }
    }

    pub fn lifetime(&self, p: usize) -> (r: Option<(usize, Pair)>)
        ensures
            res_view(r) == spec_lifetime(self.s(), p as int),
    {
        let p1 = match self.ch(p, '\'') {
            None => return None,
            Some(p1) => p1,
        };
        let mut inner = self.lifetime_static(p1);
        if inner.is_none() {
            inner = self.lifetime_empty(p1);
        }
        if inner.is_none() {
            inner = self.lifetime_var(p1);
        }
        match inner {
            Some((e, v)) => Some((e, node1(Rule::lifetime, p, e, v))),
            None => None,
        }
    }

    fn gate_word(&self, p: usize) -> (r: Option<usize>)
        ensures
            match r {
                Some(e) => spec_gate_word(self.s(), p as int) == Some(e as int),
                None => spec_gate_word(self.s(), p as int) is None,
            },
    {
        let r = self.kw(p, Word::GateCnot);
        if r.is_some() {
            return r;
        }
        let r = self.kw(p, Word::GateCx);
        if r.is_some() {
            return r;
        }
        let r = self.kw(p, Word::GateH);
        if r.is_some() {
            return r;
        }
        let r = self.kw(p, Word::GateX);
        if r.is_some() {
            return r;
        }
        let r = self.kw(p, Word::GateY);
        if r.is_some() {
            return r;
        }
        let r = self.kw(p, Word::GateZ);
        if r.is_some() {
            return r;
        }
        let r = self.kw(p, Word::GateS);
        if r.is_some() {
            return r;
        }
        self.kw(p, Word::GateT)
    }

    pub fn gate(&self, p: usize) -> (r: Option<(usize, Pair)>)
        ensures
            res_view(r) == spec_gate(self.s(), p as int),
    {
        let k = self.gate_word(p);
        self.leaf_at(Rule::gate, p, k)
    }

    pub fn qstate(&self, p: usize) -> (r: Option<(usize, Pair)>)
        ensures
            res_view(r) == spec_qstate(self.s(), p as int),
    {
        let mut k = self.ch(p, '0');
        if k.is_none() {
            k = self.ch(p, '1');
        }
        self.leaf_at(Rule::qstate, p, k)
    }

    pub fn lit_bool(&self, p: usize) -> (r: Option<(usize, Pair)>)
        ensures
            res_view(r) == spec_lit_bool(self.s(), p as int),
    {
        let mut k = self.kw(p, Word::True);
        if k.is_none() {
            k = self.kw(p, Word::False);
        }
        self.leaf_at(Rule::lit_bool, p, k)
    }

    fn parens(&self, p: usize) -> (r: Option<usize>)
        ensures
            match r {
                Some(e) => spec_parens(self.s(), p as int) == Some(e as int),
                None => spec_parens(self.s(), p as int) is None,
            },
    {
        match self.ch(p, '(') {
            Some(p1) => self.ch(self.ws(p1), ')'),
            None => None,
        }
    }

    pub fn lit_unit(&self, p: usize) -> (r: Option<(usize, Pair)>)
        ensures
            res_view(r) == spec_lit_unit(self.s(), p as int),
    {
        let k = self.parens(p);
        self.leaf_at(Rule::lit_unit, p, k)
    }

    pub fn unit_ty(&self, p: usize) -> (r: Option<(usize, Pair)>)
        ensures
            res_view(r) == spec_unit_ty(self.s(), p as int),
    {
        let k = self.parens(p);
        self.leaf_at(Rule::unit_ty, p, k)
    }

    pub fn bool_ty(&self, p: usize) -> (r: Option<(usize, Pair)>)
        ensures
            res_view(r) == spec_bool_ty(self.s(), p as int),
    {
        let k = self.kw(p, Word::Bool);
        self.leaf_at(Rule::bool_ty, p, k)
    }

    pub fn qbit_ty(&self, p: usize) -> (r: Option<(usize, Pair)>)
        ensures
            res_view(r) == spec_qbit_ty(self.s(), p as int),
    {
        let k = self.kw(p, Word::Qbit);
        self.leaf_at(Rule::qbit_ty, p, k)
    }
}

impl Scanner {
    // ------------------------------------------------------------ types

    pub fn ty(&self, p: usize) -> (r: Option<(usize, Pair)>)
        ensures
            res_view(r) == spec_ty(self.s(), p as int),
        decreases self.s().len() - p, 2int,
    {
        let mut alt = self.bool_ty(p);
        if alt.is_none() {
            alt = self.qbit_ty(p);
        }
        if alt.is_none() {
            alt = self.unit_ty(p);
        }
        if alt.is_none() {
            alt = self.product_ty(p);
        }
        if alt.is_none() {
            alt = self.ref_ty(p);
        }
        if alt.is_none() {
            alt = self.unique_ty(p);
        }
        self.wrap(Rule::ty, p, alt)
    }

    pub fn product_ty(&self, p: usize) -> (r: Option<(usize, Pair)>)
        ensures
            res_view(r) == spec_product_ty(self.s(), p as int),
        decreases self.s().len() - p, 1int,
    {
        let p1 = match self.ch(p, '(') {
            None => return None,
            Some(x) => x,
        };
        let q1 = self.ws(p1);
        let (e1, a) = match self.within(q1, self.ty(q1)) {
            None => return None,
            Some(x) => x,
        };
        let p2 = match self.ch(self.ws(e1), ',') {
            None => return None,
            Some(x) => x,
        };
        let q2 = self.ws(p2);
        let (e2, b) = match self.within(q2, self.ty(q2)) {
            None => return None,
            Some(x) => x,
        };
        let e = match self.ch(self.ws(e2), ')') {
            None => return None,
            Some(x) => x,
        };
        Some((e, node2(Rule::product_ty, p, e, a, b)))
    }

    fn sigil_ty(&self, p: usize, sigil: char, rule: Rule) -> (r: Option<(usize, Pair)>)
        ensures
            res_view(r) == spec_sigil_ty(self.s(), p as int, sigil, rule),
        decreases self.s().len() - p, 0int,
    {
        let p1 = match self.ch(p, sigil) {
            None => return None,
            Some(x) => x,
        };
        let q1 = self.ws(p1);
        let (e1, lt) = match self.within(q1, self.lifetime(q1)) {
            None => return None,
            Some(x) => x,
        };
        let q2 = self.ws(e1);
        let (e, t) = match self.within(q2, self.ty(q2)) {
            None => return None,
            Some(x) => x,
        };
        Some((e, node2(rule, p, e, lt, t)))
    }

    pub fn ref_ty(&self, p: usize) -> (r: Option<(usize, Pair)>)
        ensures
            res_view(r) == spec_ref_ty(self.s(), p as int),
        decreases self.s().len() - p, 1int,
    {
        self.sigil_ty(p, '&', Rule::ref_ty)
    }

    pub fn unique_ty(&self, p: usize) -> (r: Option<(usize, Pair)>)
        ensures
            res_view(r) == spec_unique_ty(self.s(), p as int),
        decreases self.s().len() - p, 1int,
    {
        self.sigil_ty(p, '#', Rule::unique_ty)
    }
}

/// The end position and the statements of `stmts` joined after the statements
/// `done`, the last of which ends at `last`.
pub open spec fn join_end(last: int, done: Seq<SPair>, r: (int, Seq<SPair>)) -> (int, Seq<SPair>) {
    (if r.1.len() == 0 {
        last
    } else {
        r.0
    }, done + r.1)
}

proof fn lemma_pairs_view_empty()
    ensures
        pairs_view(Seq::<Pair>::empty()) == Seq::<SPair>::empty(),
{
    assert(pairs_view(Seq::<Pair>::empty()) =~= Seq::<SPair>::empty());
}

impl Scanner {
    fn clamp(&self, q: usize, e: usize) -> (r: usize)
        ensures
            r as int == clamp(self.s(), q as int, e as int),
    {
        if q <= e && e <= self.text.len() {
            e
        } else {
            q
        }
    }

    // ------------------------------------------------------------ expressions

    pub fn expr(&self, p: usize) -> (r: Option<(usize, Pair)>)
        ensures
            res_view(r) == spec_expr(self.s(), p as int),
        decreases self.s().len() - p, 2int,
    {
        let mut alt = self.if_expr(p);
        if alt.is_none() {
            alt = self.qif_expr(p);
        }
        if alt.is_none() {
            alt = self.block(p);
        }
        if alt.is_none() {
            alt = self.lit_bool(p);
        }
        if alt.is_none() {
            alt = self.lit_unit(p);
        }
        if alt.is_none() {
            alt = self.tuple_expr(p);
        }
        if alt.is_none() {
            alt = self.meas_expr(p);
        }
        if alt.is_none() {
            alt = self.unitary_expr(p);
        }
        if alt.is_none() {
            alt = self.lifted_expr(p);
        }
        if alt.is_none() {
            alt = self.call_expr(p);
        }
        if alt.is_none() {
            alt = self.ident(p);
        }
        self.wrap(Rule::expr, p, alt)
    }

    pub fn if_expr(&self, p: usize) -> (r: Option<(usize, Pair)>)
        ensures
            res_view(r) == spec_if_expr(self.s(), p as int),
        decreases self.s().len() - p, 1int,
    {
        let p1 = match self.kw(p, Word::If) {
            None => return None,
            Some(x) => x,
        };
        let q1 = self.ws(p1);
        let (e1, c) = match self.within(q1, self.expr(q1)) {
            None => return None,
            Some(x) => x,
        };
        let q2 = self.ws(e1);
        let (e2, t) = match self.within(q2, self.block(q2)) {
            None => return None,
            Some(x) => x,
        };
        match self.kw(self.ws(e2), Word::Else) {
            None => Some((e2, node2(Rule::if_expr, p, e2, c, t))),
            Some(p3) => {
                let q3 = self.ws(p3);
                match self.within(q3, self.block(q3)) {
                    None => Some((e2, node2(Rule::if_expr, p, e2, c, t))),
                    Some((e, f)) => Some((e, node3(Rule::if_expr, p, e, c, t, f))),
                }
            },
        }
    }

    pub fn qif_expr(&self, p: usize) -> (r: Option<(usize, Pair)>)
        ensures
            res_view(r) == spec_qif_expr(self.s(), p as int),
        decreases self.s().len() - p, 1int,
    {
        let p1 = match self.kw(p, Word::Qif) {
            None => return None,
            Some(x) => x,
        };
        let q1 = self.ws(p1);
        let (e1, c) = match self.within(q1, self.ident(q1)) {
            None => return None,
            Some(x) => x,
        };
        let q2 = self.ws(e1);
        let (e2, t) = match self.within(q2, self.block(q2)) {
            None => return None,
            Some(x) => x,
        };
        let p3 = match self.kw(self.ws(e2), Word::Else) {
            None => return None,
            Some(x) => x,
        };
        let q3 = self.ws(p3);
        let (e, f) = match self.within(q3, self.block(q3)) {
            None => return None,
            Some(x) => x,
        };
        Some((e, node3(Rule::qif_expr, p, e, c, t, f)))
    }

    pub fn tuple_expr(&self, p: usize) -> (r: Option<(usize, Pair)>)
        ensures
            res_view(r) == spec_tuple_expr(self.s(), p as int),
        decreases self.s().len() - p, 1int,
    {
        let p1 = match self.ch(p, '(') {
            None => return None,
            Some(x) => x,
        };
        let q1 = self.ws(p1);
        let (e1, a) = match self.within(q1, self.expr(q1)) {
            None => return None,
            Some(x) => x,
        };
        let p2 = match self.ch(self.ws(e1), ',') {
            None => return None,
            Some(x) => x,
        };
        let q2 = self.ws(p2);
        let (e2, b) = match self.within(q2, self.expr(q2)) {
            None => return None,
            Some(x) => x,
        };
        let e = match self.ch(self.ws(e2), ')') {
            None => return None,
            Some(x) => x,
        };
        Some((e, node2(Rule::tuple_expr, p, e, a, b)))
    }

    pub fn meas_expr(&self, p: usize) -> (r: Option<(usize, Pair)>)
        ensures
            res_view(r) == spec_meas_expr(self.s(), p as int),
        decreases self.s().len() - p, 1int,
    {
        let p1 = match self.kw(p, Word::Meas) {
            None => return None,
            Some(x) => x,
        };
        let p2 = match self.ch(self.ws(p1), '(') {
            None => return None,
            Some(x) => x,
        };
        let q2 = self.ws(p2);
        let (e1, x) = match self.within(q2, self.expr(q2)) {
            None => return None,
            Some(x) => x,
        };
        let e = match self.ch(self.ws(e1), ')') {
            None => return None,
            Some(x) => x,
        };
        Some((e, node1(Rule::meas_expr, p, e, x)))
    }

    pub fn unitary_expr(&self, p: usize) -> (r: Option<(usize, Pair)>)
        ensures
            res_view(r) == spec_unitary_expr(self.s(), p as int),
        decreases self.s().len() - p, 1int,
    {
        let (e1, g) = match self.within(p, self.gate(p)) {
            None => return None,
            Some(x) => x,
        };
        if e1 <= p {
            return None;
        }
        let q1 = self.ws(e1);
        let (e, a) = match self.within(q1, self.arg_list(q1)) {
            None => return None,
            Some(x) => x,
        };
        Some((e, node2(Rule::unitary_expr, p, e, g, a)))
    }

    pub fn lifted_expr(&self, p: usize) -> (r: Option<(usize, Pair)>)
        ensures
            res_view(r) == spec_lifted_expr(self.s(), p as int),
        decreases self.s().len() - p, 1int,
    {
        let p1 = match self.ch(p, '[') {
            None => return None,
            Some(x) => x,
        };
        let q1 = self.ws(p1);
        let mut target = self.qstate(q1);
        if target.is_none() {
            target = self.ident(q1);
        }
        let (e1, t) = match self.within(q1, target) {
            None => return None,
            Some(x) => x,
        };
        let p2 = match self.ch(self.ws(e1), ']') {
            None => return None,
            Some(x) => x,
        };
        let q2 = self.ws(p2);
        let (e, a) = match self.within(q2, self.arg_list(q2)) {
            None => return None,
            Some(x) => x,
        };
        Some((e, node2(Rule::lifted_expr, p, e, t, a)))
    }

    pub fn call_expr(&self, p: usize) -> (r: Option<(usize, Pair)>)
        ensures
            res_view(r) == spec_call_expr(self.s(), p as int),
        decreases self.s().len() - p, 1int,
    {
        let (e1, f) = match self.within(p, self.ident(p)) {
            None => return None,
            Some(x) => x,
        };
        if e1 <= p {
            return None;
        }
        let q1 = self.ws(e1);
        let (e, a) = match self.within(q1, self.arg_list(q1)) {
            None => return None,
            Some(x) => x,
        };
        Some((e, node2(Rule::call_expr, p, e, f, a)))
    }

    pub fn arg_list(&self, p: usize) -> (r: Option<(usize, Pair)>)
        ensures
            res_view(r) == spec_arg_list(self.s(), p as int),
        decreases self.s().len() - p, 1int,
    {
        let p1 = match self.ch(p, '(') {
            None => return None,
            Some(x) => x,
        };
        let q1 = self.ws(p1);
        match self.within(q1, self.expr(q1)) {
            None => {
                let e = match self.ch(q1, ')') {
                    None => return None,
                    Some(x) => x,
                };
                proof {
                    lemma_pairs_view_empty();
                }
                Some((e, Pair::node(Rule::arg_list, p, e, Vec::new())))
            },
            Some((e1, x)) => {
                let ghost gx = x;
                let mut items = vec![x];
                proof {
                    assert(items@ =~= seq![gx]);
                    lemma_pairs_view_1(gx);
                }
                let e2 = self.more_args(e1, &mut items);
                let e = match self.ch(self.ws(e2), ')') {
                    None => return None,
                    Some(x) => x,
                };
                Some((e, Pair::node(Rule::arg_list, p, e, items)))
            },
        }
    }

    /// Matches (`,` expr)* after an argument that ends at `p`, appending the
    /// arguments to `items`.
    pub fn more_args(&self, p: usize, items: &mut Vec<Pair>) -> (r: usize)
        requires
            p <= self.s().len(),
        ensures
            r as int == spec_more_args(self.s(), p as int).0,
            pairs_view(final(items)@) == pairs_view(old(items)@) + spec_more_args(
                self.s(),
                p as int,
            ).1,
        decreases self.s().len() - p, 1int,
    {
        let ghost s = self.s();
        let ghost start = items@;
        let mut cur = p;
        loop
            invariant
                s == self.s(),
                p <= cur <= s.len(),
                spec_more_args(s, p as int) == (
                    spec_more_args(s, cur as int).0,
                    pairs_view(items@).subrange(start.len() as int, items@.len() as int)
                        + spec_more_args(s, cur as int).1,
                ),
                pairs_view(items@).subrange(0, start.len() as int) == pairs_view(start),
                start.len() <= items@.len(),
            ensures
                spec_more_args(s, p as int) == (
                    cur as int,
                    pairs_view(items@).subrange(start.len() as int, items@.len() as int),
                ),
                pairs_view(items@).subrange(0, start.len() as int) == pairs_view(start),
                start.len() <= items@.len(),
            decreases s.len() - cur,
        {
            let ghost before = pairs_view(items@);
            let p1 = match self.ch(self.ws(cur), ',') {
                None => {
                    assert(before.subrange(start.len() as int, items@.len() as int) + seq![]
                        =~= before.subrange(start.len() as int, items@.len() as int));
                    break;
                },
                Some(x) => x,
            };
            let q1 = self.ws(p1);
            match self.within(q1, self.expr(q1)) {
                None => {
                    assert(before.subrange(start.len() as int, items@.len() as int) + seq![]
                        =~= before.subrange(start.len() as int, items@.len() as int));
                    break;
                },
                Some((e1, x)) => {
                    let ghost gx = x;
                    items.push(x);
                    proof {
                        assert(items@ =~= items@.drop_last().push(gx));
                        lemma_pairs_view_push(items@.drop_last(), gx);
                        let after = pairs_view(items@);
                        assert(after =~= before.push(pair_view(gx)));
                        assert(after.subrange(start.len() as int, items@.len() as int) =~= before.subrange(
                            start.len() as int,
                            items@.len() - 1,
                        ).push(pair_view(gx)));
                        assert(after.subrange(0, start.len() as int) =~= before.subrange(
                            0,
                            start.len() as int,
                        ));
                        let rest = spec_more_args(s, e1 as int);
                        assert(before.subrange(start.len() as int, items@.len() - 1) + (seq![
                            pair_view(gx),
                        ] + rest.1) =~= after.subrange(start.len() as int, items@.len() as int)
                            + rest.1);
                    }
                    cur = e1;
                },
            }
        }
        proof {
            let v = pairs_view(items@);
            assert(v =~= v.subrange(0, start.len() as int) + v.subrange(
                start.len() as int,
                items@.len() as int,
            ));
        }
        cur
    }

    pub fn block(&self, p: usize) -> (r: Option<(usize, Pair)>)
        ensures
            res_view(r) == spec_block(self.s(), p as int),
        decreases self.s().len() - p, 1int,
    {
        let p1 = match self.ch(p, '{') {
            None => return None,
            Some(x) => x,
        };
        let q1 = self.ws(p1);
        let (e1, mut stmts) = self.stmts(q1);
        let q2 = self.ws(self.clamp(q1, e1));
        match self.within(q2, self.expr(q2)) {
            None => {
                let e = match self.ch(q2, '}') {
                    None => return None,
                    Some(x) => x,
                };
                Some((e, Pair::node(Rule::block, p, e, stmts)))
            },
            Some((e2, x)) => {
                let e = match self.ch(self.ws(e2), '}') {
                    None => return None,
                    Some(x) => x,
                };
                let ghost gx = x;
                let ghost before = stmts@;
                stmts.push(x);
                proof {
                    lemma_pairs_view_push(before, gx);
                }
                Some((e, Pair::node(Rule::block, p, e, stmts)))
            },
        }
    }

    /// stmt* from `p`.
    pub fn stmts(&self, p: usize) -> (r: (usize, Vec<Pair>))
        requires
            p <= self.s().len(),
        ensures
            (r.0 as int, pairs_view(r.1@)) == spec_stmts(self.s(), p as int),
        decreases self.s().len() - p, 5int,
    {
        let ghost s = self.s();
        let mut items: Vec<Pair> = Vec::new();
        let mut cur = p;
        let mut last = p;
        proof {
            lemma_pairs_view_empty();
            assert(pairs_view(items@) + spec_stmts(s, p as int).1 =~= spec_stmts(s, p as int).1);
        }
        loop
            invariant
                s == self.s(),
                p <= cur <= s.len(),
                spec_stmts(s, p as int) == join_end(
                    last as int,
                    pairs_view(items@),
                    spec_stmts(s, cur as int),
                ),
            ensures
                spec_stmts(s, p as int) == (last as int, pairs_view(items@)),
            decreases s.len() - cur,
        {
            match self.within(cur, self.stmt(cur)) {
                None => {
                    assert(pairs_view(items@) + seq![] =~= pairs_view(items@));
                    break;
                },
                Some((e1, st)) => {
                    if e1 <= cur {
                        assert(pairs_view(items@) + seq![] =~= pairs_view(items@));
                        break;
                    }
                    let ghost gst = st;
                    let ghost before = items@;
                    items.push(st);
                    proof {
                        lemma_pairs_view_push(before, gst);
                        let rest = spec_stmts(s, ws(s, e1 as int));
                        assert(pairs_view(before) + (seq![pair_view(gst)] + rest.1) =~= pairs_view(
                            items@,
                        ) + rest.1);
                    }
                    last = e1;
                    cur = self.ws(e1);
                },
            }
        }
        (last, items)
    }

    pub fn stmt(&self, p: usize) -> (r: Option<(usize, Pair)>)
        ensures
            res_view(r) == spec_stmt(self.s(), p as int),
        decreases self.s().len() - p, 4int,
    {
        let mut alt = self.let_stmt(p);
        if alt.is_none() {
            alt = self.borrow_stmt(p);
        }
        if alt.is_none() {
            alt = self.newlft_stmt(p);
        }
        if alt.is_none() {
            alt = self.endlft_stmt(p);
        }
        if alt.is_none() {
            alt = self.expr_stmt(p);
        }
        self.wrap(Rule::stmt, p, alt)
    }

    pub fn let_stmt(&self, p: usize) -> (r: Option<(usize, Pair)>)
        ensures
            res_view(r) == spec_let_stmt(self.s(), p as int),
        decreases self.s().len() - p, 3int,
    {
        let p1 = match self.kw(p, Word::Let) {
            None => return None,
            Some(x) => x,
        };
        let q1 = self.ws(p1);
        let (e1, name) = match self.within(q1, self.ident(q1)) {
            None => return None,
            Some(x) => x,
        };
        let p2 = match self.ch(self.ws(e1), ':') {
            None => return None,
            Some(x) => x,
        };
        let q2 = self.ws(p2);
        let (e2, t) = match self.within(q2, self.ty(q2)) {
            None => return None,
            Some(x) => x,
        };
        let p3 = match self.ch(self.ws(e2), '=') {
            None => return None,
            Some(x) => x,
        };
        let q3 = self.ws(p3);
        let (e3, x) = match self.within(q3, self.expr(q3)) {
            None => return None,
            Some(x) => x,
        };
        let e = match self.ch(self.ws(e3), ';') {
            None => return None,
            Some(x) => x,
        };
        Some((e, node3(Rule::let_stmt, p, e, name, t, x)))
    }

    pub fn borrow_stmt(&self, p: usize) -> (r: Option<(usize, Pair)>)
        ensures
            res_view(r) == spec_borrow_stmt(self.s(), p as int),
    {
        let p1 = match self.kw(p, Word::Let) {
            None => return None,
            Some(x) => x,
        };
        let q1 = self.ws(p1);
        let (e1, name) = match self.within(q1, self.ident(q1)) {
            None => return None,
            Some(x) => x,
        };
        let p2 = match self.ch(self.ws(e1), '=') {
            None => return None,
            Some(x) => x,
        };
        let p3 = match self.ch(self.ws(p2), '&') {
            None => return None,
            Some(x) => x,
        };
        let q3 = self.ws(p3);
        let (e3, lt) = match self.within(q3, self.lifetime(q3)) {
            None => return None,
            Some(x) => x,
        };
        let q4 = self.ws(e3);
        let (e4, src) = match self.within(q4, self.ident(q4)) {
            None => return None,
            Some(x) => x,
        };
        let e = match self.ch(self.ws(e4), ';') {
            None => return None,
            Some(x) => x,
        };
        Some((e, node3(Rule::borrow_stmt, p, e, name, lt, src)))
    }

    fn lifetime_stmt(&self, p: usize, w: Word, rule: Rule) -> (r: Option<(usize, Pair)>)
        ensures
            res_view(r) == spec_lifetime_stmt(self.s(), p as int, w, rule),
    {
        let p1 = match self.kw(p, w) {
            None => return None,
            Some(x) => x,
        };
        let q1 = self.ws(p1);
        let (e1, lt) = match self.within(q1, self.lifetime(q1)) {
            None => return None,
            Some(x) => x,
        };
        let e = match self.ch(self.ws(e1), ';') {
            None => return None,
            Some(x) => x,
        };
        Some((e, node1(rule, p, e, lt)))
    }

    pub fn newlft_stmt(&self, p: usize) -> (r: Option<(usize, Pair)>)
        ensures
            res_view(r) == spec_newlft_stmt(self.s(), p as int),
    {
        self.lifetime_stmt(p, Word::Newlft, Rule::newlft_stmt)
    }

    pub fn endlft_stmt(&self, p: usize) -> (r: Option<(usize, Pair)>)
        ensures
            res_view(r) == spec_endlft_stmt(self.s(), p as int),
    {
        self.lifetime_stmt(p, Word::Endlft, Rule::endlft_stmt)
    }

    pub fn expr_stmt(&self, p: usize) -> (r: Option<(usize, Pair)>)
        ensures
            res_view(r) == spec_expr_stmt(self.s(), p as int),
        decreases self.s().len() - p, 3int,
    {
        let (e1, x) = match self.within(p, self.expr(p)) {
            None => return None,
            Some(x) => x,
        };
        let e = match self.ch(self.ws(e1), ';') {
            None => return None,
            Some(x) => x,
        };
        Some((e, node1(Rule::expr_stmt, p, e, x)))
    }
}

impl Scanner {
    // ------------------------------------------------------------ functions

    fn lifetime_pair(&self, p: usize, c1: char, rule: Rule) -> (r: Option<(usize, Pair)>)
        ensures
            res_view(r) == spec_lifetime_pair(self.s(), p as int, c1, rule),
    {
        let (e1, a) = match self.within(p, self.lifetime(p)) {
            None => return None,
            Some(x) => x,
        };
        let p2 = match self.ch2(self.ws(e1), c1, '=') {
            None => return None,
            Some(x) => x,
        };
        let q2 = self.ws(p2);
        let (e, b) = match self.within(q2, self.lifetime(q2)) {
            None => return None,
            Some(x) => x,
        };
        Some((e, node2(rule, p, e, a, b)))
    }

    pub fn lifetime_le(&self, p: usize) -> (r: Option<(usize, Pair)>)
        ensures
            res_view(r) == spec_lifetime_le(self.s(), p as int),
    {
        self.lifetime_pair(p, '<', Rule::lifetime_le)
    }

    pub fn lifetime_neq(&self, p: usize) -> (r: Option<(usize, Pair)>)
        ensures
            res_view(r) == spec_lifetime_neq(self.s(), p as int),
    {
        self.lifetime_pair(p, '!', Rule::lifetime_neq)
    }

    fn preorder_item(&self, p: usize) -> (r: Option<(usize, Pair)>)
        ensures
            res_view(r) == spec_preorder_item(self.s(), p as int),
    {
        let mut alt = self.lifetime_le(p);
        if alt.is_none() {
            alt = self.lifetime_neq(p);
        }
        if alt.is_none() {
            alt = self.lifetime(p);
        }
        alt
    }

    /// Matches (`,` item)* after an item that ends at `p`, appending the items.
    fn more_items(&self, p: usize, items: &mut Vec<Pair>) -> (r: usize)
        requires
            p <= self.s().len(),
        ensures
            r as int == spec_more_items(self.s(), p as int).0,
            pairs_view(final(items)@) == pairs_view(old(items)@) + spec_more_items(
                self.s(),
                p as int,
            ).1,
    {
        let ghost s = self.s();
        let ghost start = items@;
        let mut cur = p;
        loop
            invariant
                s == self.s(),
                p <= cur <= s.len(),
                spec_more_items(s, p as int) == (
                    spec_more_items(s, cur as int).0,
                    pairs_view(items@).subrange(start.len() as int, items@.len() as int)
                        + spec_more_items(s, cur as int).1,
                ),
                pairs_view(items@).subrange(0, start.len() as int) == pairs_view(start),
                start.len() <= items@.len(),
            ensures
                spec_more_items(s, p as int) == (
                    cur as int,
                    pairs_view(items@).subrange(start.len() as int, items@.len() as int),
                ),
                pairs_view(items@).subrange(0, start.len() as int) == pairs_view(start),
                start.len() <= items@.len(),
            decreases s.len() - cur,
        {
            let ghost before = pairs_view(items@);
            let p1 = match self.ch(self.ws(cur), ',') {
                None => {
                    assert(before.subrange(start.len() as int, items@.len() as int) + seq![]
                        =~= before.subrange(start.len() as int, items@.len() as int));
                    break;
                },
                Some(x) => x,
            };
            let q1 = self.ws(p1);
            match self.within(q1, self.preorder_item(q1)) {
                None => {
                    assert(before.subrange(start.len() as int, items@.len() as int) + seq![]
                        =~= before.subrange(start.len() as int, items@.len() as int));
                    break;
                },
                Some((e1, x)) => {
                    let ghost gx = x;
                    items.push(x);
                    proof {
                        assert(items@ =~= items@.drop_last().push(gx));
                        lemma_pairs_view_push(items@.drop_last(), gx);
                        let after = pairs_view(items@);
                        assert(after =~= before.push(pair_view(gx)));
                        assert(after.subrange(start.len() as int, items@.len() as int) =~= before.subrange(
                            start.len() as int,
                            items@.len() - 1,
                        ).push(pair_view(gx)));
                        assert(after.subrange(0, start.len() as int) =~= before.subrange(
                            0,
                            start.len() as int,
                        ));
                        let rest = spec_more_items(s, e1 as int);
                        assert(before.subrange(start.len() as int, items@.len() - 1) + (seq![
                            pair_view(gx),
                        ] + rest.1) =~= after.subrange(start.len() as int, items@.len() as int)
                            + rest.1);
                    }
                    cur = e1;
                },
            }
        }
        proof {
            let v = pairs_view(items@);
            assert(v =~= v.subrange(0, start.len() as int) + v.subrange(
                start.len() as int,
                items@.len() as int,
            ));
        }
        cur
    }

    pub fn lifetime_preorder(&self, p: usize) -> (r: Option<(usize, Pair)>)
        ensures
            res_view(r) == spec_lifetime_preorder(self.s(), p as int),
    {
        let p1 = match self.ch(p, '<') {
            None => return None,
            Some(x) => x,
        };
        let q1 = self.ws(p1);
        let (e1, x) = match self.within(q1, self.preorder_item(q1)) {
            None => return None,
            Some(x) => x,
        };
        let ghost gx = x;
        let mut items = vec![x];
        proof {
            assert(items@ =~= seq![gx]);
            lemma_pairs_view_1(gx);
        }
        let e2 = self.more_items(e1, &mut items);
        let e = match self.ch(self.ws(e2), '>') {
            None => return None,
            Some(x) => x,
        };
        Some((e, Pair::node(Rule::lifetime_preorder, p, e, items)))
    }

    pub fn param(&self, p: usize) -> (r: Option<(usize, Pair)>)
        ensures
            res_view(r) == spec_param(self.s(), p as int),
    {
        let (e1, name) = match self.within(p, self.ident(p)) {
            None => return None,
            Some(x) => x,
        };
        let p2 = match self.ch(self.ws(e1), ':') {
            None => return None,
            Some(x) => x,
        };
        let q2 = self.ws(p2);
        let (e, t) = match self.within(q2, self.ty(q2)) {
            None => return None,
            Some(x) => x,
        };
        Some((e, node2(Rule::param, p, e, name, t)))
    }

    /// Matches (`,` param)* after a parameter that ends at `p`, appending the parameters.
    fn more_params(&self, p: usize, items: &mut Vec<Pair>) -> (r: usize)
        requires
            p <= self.s().len(),
        ensures
            r as int == spec_more_params(self.s(), p as int).0,
            pairs_view(final(items)@) == pairs_view(old(items)@) + spec_more_params(
                self.s(),
                p as int,
            ).1,
    {
        let ghost s = self.s();
        let ghost start = items@;
        let mut cur = p;
        loop
            invariant
                s == self.s(),
                p <= cur <= s.len(),
                spec_more_params(s, p as int) == (
                    spec_more_params(s, cur as int).0,
                    pairs_view(items@).subrange(start.len() as int, items@.len() as int)
                        + spec_more_params(s, cur as int).1,
                ),
                pairs_view(items@).subrange(0, start.len() as int) == pairs_view(start),
                start.len() <= items@.len(),
            ensures
                spec_more_params(s, p as int) == (
                    cur as int,
                    pairs_view(items@).subrange(start.len() as int, items@.len() as int),
                ),
                pairs_view(items@).subrange(0, start.len() as int) == pairs_view(start),
                start.len() <= items@.len(),
            decreases s.len() - cur,
        {
            let ghost before = pairs_view(items@);
            let p1 = match self.ch(self.ws(cur), ',') {
                None => {
                    assert(before.subrange(start.len() as int, items@.len() as int) + seq![]
                        =~= before.subrange(start.len() as int, items@.len() as int));
                    break;
                },
                Some(x) => x,
            };
            let q1 = self.ws(p1);
            match self.within(q1, self.param(q1)) {
                None => {
                    assert(before.subrange(start.len() as int, items@.len() as int) + seq![]
                        =~= before.subrange(start.len() as int, items@.len() as int));
                    break;
                },
                Some((e1, x)) => {
                    let ghost gx = x;
                    items.push(x);
                    proof {
                        assert(items@ =~= items@.drop_last().push(gx));
                        lemma_pairs_view_push(items@.drop_last(), gx);
                        let after = pairs_view(items@);
                        assert(after =~= before.push(pair_view(gx)));
                        assert(after.subrange(start.len() as int, items@.len() as int) =~= before.subrange(
                            start.len() as int,
                            items@.len() - 1,
                        ).push(pair_view(gx)));
                        assert(after.subrange(0, start.len() as int) =~= before.subrange(
                            0,
                            start.len() as int,
                        ));
                        let rest = spec_more_params(s, e1 as int);
                        assert(before.subrange(start.len() as int, items@.len() - 1) + (seq![
                            pair_view(gx),
                        ] + rest.1) =~= after.subrange(start.len() as int, items@.len() as int)
                            + rest.1);
                    }
                    cur = e1;
                },
            }
        }
        proof {
            let v = pairs_view(items@);
            assert(v =~= v.subrange(0, start.len() as int) + v.subrange(
                start.len() as int,
                items@.len() as int,
            ));
        }
        cur
    }

    pub fn param_list(&self, p: usize) -> (r: Option<(usize, Pair)>)
        ensures
            res_view(r) == spec_param_list(self.s(), p as int),
    {
        let p1 = match self.ch(p, '(') {
            None => return None,
            Some(x) => x,
        };
        let q1 = self.ws(p1);
        match self.within(q1, self.param(q1)) {
            None => {
                let e = match self.ch(q1, ')') {
                    None => return None,
                    Some(x) => x,
                };
                proof {
                    lemma_pairs_view_empty();
                }
                Some((e, Pair::node(Rule::param_list, p, e, Vec::new())))
            },
            Some((e1, x)) => {
                let ghost gx = x;
                let mut items = vec![x];
                proof {
                    assert(items@ =~= seq![gx]);
                    lemma_pairs_view_1(gx);
                }
                let e2 = self.more_params(e1, &mut items);
                let e = match self.ch(self.ws(e2), ')') {
                    None => return None,
                    Some(x) => x,
                };
                Some((e, Pair::node(Rule::param_list, p, e, items)))
            },
        }
    }

    pub fn signature(&self, p: usize) -> (r: Option<(usize, Pair)>)
        ensures
            res_view(r) == spec_signature(self.s(), p as int),
    {
        let mut children: Vec<Pair> = Vec::new();
        let ghost pre: Seq<SPair>;
        let q1 = match self.within(p, self.lifetime_preorder(p)) {
            Some((e0, lp)) => {
                proof {
                    pre = seq![pair_view(lp)];
                }
                let ghost glp = lp;
                children.push(lp);
                proof {
                    assert(children@ =~= seq![glp]);
                    lemma_pairs_view_1(glp);
                }
                self.ws(e0)
            },
            None => {
                proof {
                    pre = seq![];
                    lemma_pairs_view_empty();
                }
                p
            },
        };
        assert(pairs_view(children@) == pre);
        let (e1, params) = match self.within(q1, self.param_list(q1)) {
            None => return None,
            Some(x) => x,
        };
        let p2 = match self.ch2(self.ws(e1), '-', '>') {
            None => return None,
            Some(x) => x,
        };
        let q2 = self.ws(p2);
        let (e, t) = match self.within(q2, self.ty(q2)) {
            None => return None,
            Some(x) => x,
        };
        let ghost gp = params;
        let ghost gt = t;
        let ghost c0 = children@;
        children.push(params);
        children.push(t);
        proof {
            assert(children@ =~= c0.push(gp).push(gt));
            lemma_pairs_view_push(c0, gp);
            lemma_pairs_view_push(c0.push(gp), gt);
            assert(pre + seq![pair_view(gp), pair_view(gt)] =~= pre.push(pair_view(gp)).push(
                pair_view(gt),
            ));
        }
        Some((e, Pair::node(Rule::signature, p, e, children)))
    }

    pub fn function(&self, p: usize) -> (r: Option<(usize, Pair)>)
        ensures
            res_view(r) == spec_function(self.s(), p as int),
    {
        let p1 = match self.kw(p, Word::Fn) {
            None => return None,
            Some(x) => x,
        };
        let q1 = self.ws(p1);
        let (e1, name) = match self.within(q1, self.ident(q1)) {
            None => return None,
            Some(x) => x,
        };
        let q2 = self.ws(e1);
        let (e2, sig) = match self.within(q2, self.signature(q2)) {
            None => return None,
            Some(x) => x,
        };
        let q3 = self.ws(e2);
        let (e, body) = match self.within(q3, self.block(q3)) {
            None => return None,
            Some(x) => x,
        };
        Some((e, node3(Rule::function, p, e, name, sig, body)))
    }

    /// function* from `p`.
    pub fn functions(&self, p: usize) -> (r: (usize, Vec<Pair>))
        requires
            p <= self.s().len(),
        ensures
            (r.0 as int, pairs_view(r.1@)) == spec_functions(self.s(), p as int),
    {
        let ghost s = self.s();
        let mut items: Vec<Pair> = Vec::new();
        let mut cur = p;
        let mut last = p;
        proof {
            lemma_pairs_view_empty();
            assert(pairs_view(items@) + spec_functions(s, p as int).1 =~= spec_functions(
                s,
                p as int,
            ).1);
        }
        loop
            invariant
                s == self.s(),
                p <= cur <= s.len(),
                spec_functions(s, p as int) == join_end(
                    last as int,
                    pairs_view(items@),
                    spec_functions(s, cur as int),
                ),
            ensures
                spec_functions(s, p as int) == (last as int, pairs_view(items@)),
            decreases s.len() - cur,
        {
            match self.within(cur, self.function(cur)) {
                None => {
                    assert(pairs_view(items@) + seq![] =~= pairs_view(items@));
                    break;
                },
                Some((e1, f)) => {
                    if e1 <= cur {
                        assert(pairs_view(items@) + seq![] =~= pairs_view(items@));
                        break;
                    }
                    let ghost gf = f;
                    let ghost before = items@;
                    items.push(f);
                    proof {
                        lemma_pairs_view_push(before, gf);
                        let rest = spec_functions(s, ws(s, e1 as int));
                        assert(pairs_view(before) + (seq![pair_view(gf)] + rest.1) =~= pairs_view(
                            items@,
                        ) + rest.1);
                    }
                    last = e1;
                    cur = self.ws(e1);
                },
            }
        }
        (last, items)
    }

    pub fn eoi(&self, p: usize) -> (r: Option<(usize, Pair)>)
        ensures
            res_view(r) == spec_eoi(self.s(), p as int),
    {
        if p == self.text.len() {
            Some((p, Pair::leaf(Rule::EOI, p, p)))
        } else {
            None
        }
    }

    /// The single rule `rule` (other than `program`) matched at `p`.
    pub fn rule(&self, rule: Rule, p: usize) -> (r: Option<(usize, Pair)>)
        ensures
            res_view(r) == spec_rule(rule, self.s(), p as int),
    {
        match rule {
            Rule::EOI => self.eoi(p),
            Rule::program => None,
            Rule::function => self.function(p),
            Rule::signature => self.signature(p),
            Rule::lifetime_preorder => self.lifetime_preorder(p),
            Rule::lifetime_le => self.lifetime_le(p),
            Rule::lifetime_neq => self.lifetime_neq(p),
            Rule::param_list => self.param_list(p),
            Rule::param => self.param(p),
            Rule::ty => self.ty(p),
            Rule::bool_ty => self.bool_ty(p),
            Rule::qbit_ty => self.qbit_ty(p),
            Rule::unit_ty => self.unit_ty(p),
            Rule::product_ty => self.product_ty(p),
            Rule::ref_ty => self.ref_ty(p),
            Rule::unique_ty => self.unique_ty(p),
            Rule::lifetime => self.lifetime(p),
            Rule::lifetime_static => self.lifetime_static(p),
            Rule::lifetime_empty => self.lifetime_empty(p),
            Rule::lifetime_var => self.lifetime_var(p),
            Rule::block => self.block(p),
            Rule::stmt => self.stmt(p),
            Rule::let_stmt => self.let_stmt(p),
            Rule::borrow_stmt => self.borrow_stmt(p),
            Rule::newlft_stmt => self.newlft_stmt(p),
            Rule::endlft_stmt => self.endlft_stmt(p),
            Rule::expr_stmt => self.expr_stmt(p),
            Rule::expr => self.expr(p),
            Rule::if_expr => self.if_expr(p),
            Rule::qif_expr => self.qif_expr(p),
            Rule::lit_bool => self.lit_bool(p),
            Rule::lit_unit => self.lit_unit(p),
            Rule::tuple_expr => self.tuple_expr(p),
            Rule::meas_expr => self.meas_expr(p),
            Rule::unitary_expr => self.unitary_expr(p),
            Rule::gate => self.gate(p),
            Rule::lifted_expr => self.lifted_expr(p),
            Rule::qstate => self.qstate(p),
            Rule::call_expr => self.call_expr(p),
            Rule::arg_list => self.arg_list(p),
            Rule::ident => self.ident(p),
        }
    }

    /// A whole program.
    pub fn program(&self) -> (r: Result<Vec<Pair>, usize>)
        ensures
            match r {
                Ok(v) => spec_program(self.s()) == Ok::<Seq<SPair>, int>(pairs_view(v@)),
                Err(q) => spec_program(self.s()) == Err::<Seq<SPair>, int>(q as int),
            },
    {
        let n = self.text.len();
        let q0 = self.ws(0);
        let (e, mut fns) = self.functions(q0);
        let q = self.ws(self.clamp(q0, e));
        if q == n {
            let ghost before = fns@;
            let end = Pair::leaf(Rule::EOI, n, n);
            let ghost gend = end;
            fns.push(end);
            proof {
                lemma_pairs_view_push(before, gend);
            }
            Ok(fns)
        } else {
            Err(q)
        }
    }
}

/// What parsing `rule` from the start of a text gives: for `program`, the
/// functions and the end marker; for any other rule, the one node it matched
/// at the start of the text (which need not reach the end). On failure, the
/// character position where parsing stopped.
pub open spec fn spec_parse(rule: Rule, s: Seq<char>) -> Result<Seq<SPair>, int> {
    if rule == Rule::program {
        spec_program(s)
    } else {
        match spec_rule(rule, s, 0) {
            Some((_, n)) => Ok(seq![n]),
            None => Err(0),
        }
    }
}

/// A failed parse: the character position where it stopped.
#[derive(Clone, Copy, Debug, PartialEq, Eq, Structural)]
pub struct ParseError {
    pub position: usize,
}

/// The line and column (both counted from 1) of character position `p` of `s`.
pub open spec fn line_col(s: Seq<char>, p: int) -> (int, int)
    decreases p,
{
    if p <= 0 {
        (1, 1)
    } else {
        let (l, c) = line_col(s, p - 1);
        if s[p - 1] == '\n' {
            (l + 1, 1)
        } else {
            (l, c + 1)
        }
    }
}

impl ParseError {
    /// The line and column (both counted from 1) in `input` where parsing stopped.
    pub fn line_col(&self, input: &str) -> (r: (usize, usize))
        requires
            self.position <= input@.len(),
            input@.len() < usize::MAX,
        ensures
            (r.0 as int, r.1 as int) == line_col(input@, self.position as int),
    {
        let text = chars_of(input);
        let mut line: usize = 1;
        let mut col: usize = 1;
        let mut i: usize = 0;
        while i < self.position
            invariant
                i <= self.position <= text@.len(),
                text@ == input@,
                input@.len() < usize::MAX,
                (line as int, col as int) == line_col(input@, i as int),
                1 <= line <= i + 1,
                1 <= col <= i + 1,
            decreases self.position - i,
        {
            if text[i] == '\n' {
                line = line + 1;
                col = 1;
            } else {
                col = col + 1;
            }
            i = i + 1;
        }
        (line, col)
    }
}

/// The parser of qurts source text.
pub struct QurtsParser;

impl QurtsParser {
    /// Parses `input` as `rule`.
    pub fn parse(rule: Rule, input: &str) -> (r: Result<Vec<Pair>, ParseError>)
        ensures
            match r {
                Ok(v) => spec_parse(rule, input@) == Ok::<Seq<SPair>, int>(pairs_view(v@)),
                Err(e) => spec_parse(rule, input@) == Err::<Seq<SPair>, int>(e.position as int),
            },
            r matches Err(e) ==> e.position <= input@.len(),
    {
        let sc = Scanner::new(input);
        if rule == Rule::program {
            match sc.program() {
                Ok(v) => Ok(v),
                Err(q) => Err(ParseError { position: q }),
            }
        } else {
            match sc.rule(rule, 0) {
                Some((_, n)) => {
                    let ghost gn = n;
                    let v = vec![n];
                    proof {
                        assert(v@ =~= seq![gn]);
                        lemma_pairs_view_1(gn);
                    }
                    Ok(v)
                },
                None => Err(ParseError { position: 0 }),
            }
        }
    }
}

pub proof fn lemma_scan_ident_bounds(s: Seq<char>, p: int)
    ensures
        p <= scan_ident(s, p),
        0 <= p <= s.len() ==> scan_ident(s, p) <= s.len(),
    decreases s.len() - p,
{
    if 0 <= p < s.len() && is_ident_char(s[p]) {
        lemma_scan_ident_bounds(s, p + 1);
    }
}

} // verus!
