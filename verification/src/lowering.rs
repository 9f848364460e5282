//! What lowering a function body produces, stated over parse-tree models.
//!
//! Each function gives, for an environment and a body under construction,
//! either the lowered value with the environment and body afterwards, or the
//! error that stops the lowering of the function.
use vstd::prelude::*;

use crate::env::{
    SEnv, env_close_lifetime, env_define, env_lifetime, env_lookup, env_open_lifetime,
    env_pop_scope, env_push_scope,
};
use crate::error::{LowerError, SLowerError, err_view};
use crate::grammar::Rule;
use crate::ir::{
    SBody, SOp, Ty, numbers, types_of, with_block, with_op, with_value, with_values,
};
use crate::signature::{SSig, sig_lookup};
use crate::tree::{SPair, text_of};
use crate::value::{LoweredValue, lv_view, SLV, SShape, flat, flats, shape_len, shapes_len, unflatten, unflattens, unit_lv};
use crate::env::{names_distinct, scope_lookup, scopes_lookup};
use crate::ir::{all_defined, body_ok, ends_at, open_before, opens_at};

verus! {

/// What lowering reads but does not change: the source text, and the
/// signatures of the program's functions.
pub struct LCtx {
    pub s: Seq<char>,
    pub sigs: Seq<(Seq<char>, SSig)>,
}

/// A lifetime name as written in messages: with its leading quote.
pub open spec fn quoted(name: Seq<char>) -> Seq<char> {
    "'"@ + name
}

/// The name of the lifetime variable of a `lifetime` node; `'0` and
/// `'static` are refused with the text of the statement.
pub open spec fn spec_lifetime_var_name(s: Seq<char>, lt: SPair, stmt_text: Seq<char>) -> Result<
    Seq<char>,
    SLowerError,
> {
    if lt.children.len() == 0 {
        Err(SLowerError::UnsupportedLifetime(lt.rule, stmt_text))
    } else {
        let v = lt.children[0];
        if v.rule == Rule::lifetime_var {
            Ok(text_of(s, v))
        } else {
            Err(SLowerError::UnsupportedLifetime(v.rule, stmt_text))
        }
    }
}

/// The value of an `scf.if` with the given results: unit for none, the value
/// itself for one, a tuple of them for more.
pub open spec fn if_value(results: Seq<usize>) -> SLV {
    if results.len() == 0 {
        unit_lv()
    } else if results.len() == 1 {
        SLV::Single(results[0])
    } else {
        SLV::Tuple(results.map_values(|v: usize| SLV::Single(v)))
    }
}

/// The value of a block: its trailing expression's, else unit.
pub open spec fn or_unit(t: Option<SLV>) -> SLV {
    match t {
        Some(v) => v,
        None => unit_lv(),
    }
}

/// Lowering an `expr` node into block `blk`.
pub open spec fn spec_lower_expr(c: LCtx, e: SEnv, b: SBody, blk: usize, n: SPair) -> Result<
    (SLV, SEnv, SBody),
    SLowerError,
>
    decreases n, 3int,
{
    let text = text_of(c.s, n);
    if n.children.len() == 0 {
        Err(SLowerError::UnsupportedExpr(n.rule, text))
    } else {
        let inner = n.children[0];
        if inner.rule == Rule::lit_bool {
            let v = b.types.len() as usize;
            let value = text_of(c.s, inner) == "true"@;
            Ok(
                (
                    SLV::Single(v),
                    e,
                    with_op(with_value(b, Ty::I1), blk, SOp::Constant { result: v, value }),
                ),
            )
        } else if inner.rule == Rule::lit_unit {
            Ok((unit_lv(), e, b))
        } else if inner.rule == Rule::tuple_expr {
            if inner.children.len() < 2 {
                Err(SLowerError::UnsupportedExpr(inner.rule, text))
            } else {
                match spec_lower_expr(c, e, b, blk, inner.children[0]) {
                    Err(x) => Err(x),
                    Ok((l, e1, b1)) => match spec_lower_expr(c, e1, b1, blk, inner.children[1]) {
                        Err(x) => Err(x),
                        Ok((r, e2, b2)) => Ok((SLV::Tuple(seq![l, r]), e2, b2)),
                    },
                }
            }
        } else if inner.rule == Rule::ident {
            match env_lookup(e, text_of(c.s, inner)) {
                Some(v) => Ok((v, e, b)),
                None => Err(SLowerError::UndefinedVariable(text_of(c.s, inner))),
            }
        } else if inner.rule == Rule::call_expr {
            spec_lower_call(c, e, b, blk, inner)
        } else if inner.rule == Rule::if_expr {
            spec_lower_if(c, e, b, blk, inner)
        } else if inner.rule == Rule::block {
            match spec_lower_block_body(c, env_push_scope(e), b, blk, inner) {
                Err(x) => Err(x),
                Ok((t, e1, b1)) => Ok((or_unit(t), env_pop_scope(e1), b1)),
            }
        } else {
            Err(SLowerError::UnsupportedExpr(inner.rule, text))
        }
    }
}

/// Lowering the arguments `args[0..k]` in order: their values, flattened.
pub open spec fn spec_lower_args(
    c: LCtx,
    e: SEnv,
    b: SBody,
    blk: usize,
    args: Seq<SPair>,
    k: int,
) -> Result<(Seq<usize>, SEnv, SBody), SLowerError>
    decreases args, k,
{
    if k <= 0 || k > args.len() {
        Ok((Seq::empty(), e, b))
    } else {
        match spec_lower_args(c, e, b, blk, args, k - 1) {
            Err(x) => Err(x),
            Ok((ops, e1, b1)) => match spec_lower_expr(c, e1, b1, blk, args[k - 1]) {
                Err(x) => Err(x),
                Ok((v, e2, b2)) => Ok((ops + flat(v), e2, b2)),
            },
        }
    }
}

/// Lowering a `call_expr` node: the arguments in order, then a `func.call`
/// of the callee's recorded signature, whose results are regrouped by the
/// signature's result shape.
pub open spec fn spec_lower_call(c: LCtx, e: SEnv, b: SBody, blk: usize, n: SPair) -> Result<
    (SLV, SEnv, SBody),
    SLowerError,
>
    decreases n, 2int,
{
    if n.children.len() < 2 {
        Err(SLowerError::UnsupportedExpr(n.rule, text_of(c.s, n)))
    } else {
        let callee = text_of(c.s, n.children[0]);
        let args = n.children[1].children;
        match spec_lower_args(c, e, b, blk, args, args.len() as int) {
            Err(x) => Err(x),
            Ok((operands, e1, b1)) => match sig_lookup(c.sigs, callee) {
                None => Err(SLowerError::UndefinedVariable(callee)),
                Some(sig) => {
                    let results = numbers(b1.types.len() as int, sig.result_types.len() as int);
                    let b2 = with_op(
                        with_values(b1, sig.result_types),
                        blk,
                        SOp::Call { callee, operands, results },
                    );
                    Ok((unflatten(sig.result_shape, results, 0).0, e1, b2))
                },
            },
        }
    }
}

/// Lowering one branch of an `if` into block `blk`, in a scope of its own:
/// the flattened values of the branch.
pub open spec fn spec_lower_branch(c: LCtx, e: SEnv, b: SBody, blk: usize, n: SPair) -> Result<
    (Seq<usize>, SEnv, SBody),
    SLowerError,
>
    decreases n, 1int,
{
    match spec_lower_block_body(c, env_push_scope(e), b, blk, n) {
        Err(x) => Err(x),
        Ok((t, e1, b1)) => Ok((flat(or_unit(t)), env_pop_scope(e1), b1)),
    }
}

/// Lowering an `if_expr` node: the condition, then each branch into a new
/// block ended by an `scf.yield` of its values (the `else` block yields
/// nothing when there is no `else`), then an `scf.if` with the types of the
/// `then` values. A condition that is not a single value is refused.
pub open spec fn spec_lower_if(c: LCtx, e: SEnv, b: SBody, blk: usize, n: SPair) -> Result<
    (SLV, SEnv, SBody),
    SLowerError,
>
    decreases n, 2int,
{
    if n.children.len() < 2 {
        Err(SLowerError::UnsupportedExpr(n.rule, text_of(c.s, n)))
    } else {
        match spec_lower_expr(c, e, b, blk, n.children[0]) {
            Err(x) => Err(x),
            Ok((cv, e1, b1)) => match cv {
                SLV::Tuple(_) => Err(SLowerError::UnsupportedExpr(n.rule, text_of(c.s, n))),
                SLV::Single(cond) => {
                    let tb = b1.blocks.len() as usize;
                    match spec_lower_branch(c, e1, with_block(b1), tb, n.children[1]) {
                        Err(x) => Err(x),
                        Ok((tvals, e2, b2)) => {
                            let rtys = types_of(b2, tvals);
                            let b3 = with_op(b2, tb, SOp::Yield { values: tvals });
                            let eb = b3.blocks.len() as usize;
                            let else_result = if n.children.len() >= 3 {
                                spec_lower_branch(c, e2, with_block(b3), eb, n.children[2])
                            } else {
                                Ok((Seq::empty(), e2, with_block(b3)))
                            };
                            match else_result {
                                Err(x) => Err(x),
                                Ok((evals, e3, b4)) => {
                                    let b5 = with_op(b4, eb, SOp::Yield { values: evals });
                                    let results = numbers(b5.types.len() as int, rtys.len() as int);
                                    let b6 = with_op(
                                        with_values(b5, rtys),
                                        blk,
                                        SOp::If { condition: cond, then_block: tb, else_block: eb, results },
                                    );
                                    Ok((if_value(results), e3, b6))
                                },
                            }
                        },
                    }
                },
            },
        }
    }
}

/// Lowering a `block` node's statements and trailing expression into block
/// `blk`: the value of the trailing expression, if there is one.
pub open spec fn spec_lower_block_body(c: LCtx, e: SEnv, b: SBody, blk: usize, n: SPair) -> Result<
    (Option<SLV>, SEnv, SBody),
    SLowerError,
>
    decreases n, 0int,
{
    spec_lower_items(c, e, b, blk, n.children, n.children.len() as int)
}

/// Lowering the items `cs[0..k]` of a block in order.
pub open spec fn spec_lower_items(
    c: LCtx,
    e: SEnv,
    b: SBody,
    blk: usize,
    cs: Seq<SPair>,
    k: int,
) -> Result<(Option<SLV>, SEnv, SBody), SLowerError>
    decreases cs, k,
{
    if k <= 0 || k > cs.len() {
        Ok((None, e, b))
    } else {
        match spec_lower_items(c, e, b, blk, cs, k - 1) {
            Err(x) => Err(x),
            Ok((t, e1, b1)) => {
                let item = cs[k - 1];
                if item.rule == Rule::stmt {
                    match spec_lower_stmt(c, e1, b1, blk, item) {
                        Err(x) => Err(x),
                        Ok((e2, b2)) => Ok((t, e2, b2)),
                    }
                } else if item.rule == Rule::expr {
                    match spec_lower_expr(c, e1, b1, blk, item) {
                        Err(x) => Err(x),
                        Ok((v, e2, b2)) => Ok((Some(v), e2, b2)),
                    }
                } else {
                    Err(SLowerError::UnsupportedStmt(item.rule, text_of(c.s, item)))
                }
            },
        }
    }
}

/// Lowering a `stmt` node into block `blk`.
pub open spec fn spec_lower_stmt(c: LCtx, e: SEnv, b: SBody, blk: usize, n: SPair) -> Result<
    (SEnv, SBody),
    SLowerError,
>
    decreases n, 3int,
{
    let text = text_of(c.s, n);
    if n.children.len() == 0 {
        Err(SLowerError::UnsupportedStmt(n.rule, text))
    } else {
        let inner = n.children[0];
        if inner.rule == Rule::let_stmt && inner.children.len() >= 3 {
            match spec_lower_expr(c, e, b, blk, inner.children[2]) {
                Err(x) => Err(x),
                Ok((v, e1, b1)) => Ok((env_define(e1, text_of(c.s, inner.children[0]), v), b1)),
            }
        } else if inner.rule == Rule::expr_stmt && inner.children.len() >= 1 {
            match spec_lower_expr(c, e, b, blk, inner.children[0]) {
                Err(x) => Err(x),
                Ok((_, e1, b1)) => Ok((e1, b1)),
            }
        } else if inner.rule == Rule::newlft_stmt && inner.children.len() >= 1 {
            match spec_lifetime_var_name(c.s, inner.children[0], text) {
                Err(x) => Err(x),
                Ok(name) => {
                    let token = b.types.len() as usize;
                    let b1 = with_op(with_value(b, Ty::Lifetime), blk, SOp::NewLft { result: token });
                    let (opened, e1) = env_open_lifetime(e, name, token);
                    if opened {
                        Ok((e1, b1))
                    } else {
                        Err(SLowerError::LifetimeAlreadyOpen(quoted(name)))
                    }
                },
            }
        } else if inner.rule == Rule::endlft_stmt && inner.children.len() >= 1 {
            match spec_lifetime_var_name(c.s, inner.children[0], text) {
                Err(x) => Err(x),
                Ok(name) => match env_close_lifetime(e, name) {
                    (None, _) => Err(SLowerError::UnknownLifetime(quoted(name))),
                    (Some(token), e1) => Ok((e1, with_op(b, blk, SOp::End { lifetime: token }))),
                },
            }
        } else if inner.rule == Rule::borrow_stmt && inner.children.len() >= 3 {
            match spec_lifetime_var_name(c.s, inner.children[1], text) {
                Err(x) => Err(x),
                Ok(lname) => match env_lifetime(e, lname) {
                    None => Err(SLowerError::UnknownLifetime(quoted(lname))),
                    Some(token) => {
                        let source = text_of(c.s, inner.children[2]);
                        match env_lookup(e, source) {
                            None => Err(SLowerError::UndefinedVariable(source)),
                            Some(SLV::Tuple(_)) => Err(
                                SLowerError::UnsupportedStmt(Rule::borrow_stmt, text),
                            ),
                            Some(SLV::Single(x)) => {
                                let r = b.types.len() as usize;
                                let b1 = with_op(
                                    with_value(b, Ty::Ref(Box::new(b.types[x as int]))),
                                    blk,
                                    SOp::Borrow { source: x, lifetime: token, result: r },
                                );
                                Ok(
                                    (
                                        env_define(e, text_of(c.s, inner.children[0]), SLV::Single(r)),
                                        b1,
                                    ),
                                )
                            },
                        }
                    },
                },
            }
        } else {
            Err(SLowerError::UnsupportedStmt(inner.rule, text))
        }
    }
}


/// Whether lowering an `expr` node fails on the node itself, before anything
/// is lowered: it has no child, its kind is not lowered, a tuple lacks a
/// side, or a name is not defined.
pub open spec fn spec_expr_fails_early(c: LCtx, e: SEnv, n: SPair) -> bool {
    if n.children.len() == 0 {
        true
    } else {
        let inner = n.children[0];
        if inner.rule == Rule::lit_bool || inner.rule == Rule::lit_unit || inner.rule
            == Rule::call_expr || inner.rule == Rule::if_expr || inner.rule == Rule::block {
            false
        } else if inner.rule == Rule::tuple_expr {
            inner.children.len() < 2
        } else if inner.rule == Rule::ident {
            env_lookup(e, text_of(c.s, inner)) is None
        } else {
            true
        }
    }
}

/// The environment and body after lowering a `call_expr` node fails on the
/// call itself: unchanged when the node is malformed; as the arguments left
/// them, with no `func.call`, when the callee has no signature.
pub open spec fn spec_call_error_state(c: LCtx, e: SEnv, b: SBody, blk: usize, n: SPair) -> Option<
    (SEnv, SBody),
> {
    if n.children.len() < 2 {
        Some((e, b))
    } else {
        let args = n.children[1].children;
        match spec_lower_args(c, e, b, blk, args, args.len() as int) {
            Ok((_, e1, b1)) => if sig_lookup(c.sigs, text_of(c.s, n.children[0])) is None {
                Some((e1, b1))
            } else {
                None
            },
            Err(_) => None,
        }
    }
}

/// The environment and body after lowering a `stmt` node fails on the
/// statement itself rather than in an expression inside it: unchanged,
/// except that `newlft` of a lifetime that is already open has appended its
/// `qduc.newlft` (the lifetime keeps its first token).
pub open spec fn spec_stmt_error_state(c: LCtx, e: SEnv, b: SBody, blk: usize, n: SPair) -> Option<
    (SEnv, SBody),
> {
    if n.children.len() == 0 {
        Some((e, b))
    } else {
        let inner = n.children[0];
        if (inner.rule == Rule::let_stmt && inner.children.len() >= 3) || (inner.rule
            == Rule::expr_stmt && inner.children.len() >= 1) {
            None
        } else if inner.rule == Rule::newlft_stmt && inner.children.len() >= 1 {
            match spec_lifetime_var_name(c.s, inner.children[0], text_of(c.s, n)) {
                Err(_) => Some((e, b)),
                Ok(_) => {
                    let token = b.types.len() as usize;
                    Some((e, with_op(with_value(b, Ty::Lifetime), blk, SOp::NewLft { result: token })))
                },
            }
        } else {
            Some((e, b))
        }
    }
}

// ---------------------------------------------------------------- invariants

/// Every IR value that a lowered value is made of exists in the body.
pub open spec fn lv_ok(b: SBody, v: SLV) -> bool {
    all_defined(b, flat(v))
}

/// An environment usable with a body: it has a scope; every value and
/// lifetime token in it exists in the body; its open lifetimes are open in
/// the body, with distinct tokens and distinct names.
pub open spec fn env_ok(e: SEnv, b: SBody) -> bool {
    &&& e.scopes.len() > 0
    &&& forall|i: int, j: int|
        0 <= i < e.scopes.len() && 0 <= j < e.scopes[i].len() ==> #[trigger] lv_ok(
            b,
            e.scopes[i][j].1,
        )
    &&& forall|k: int| 0 <= k < e.lifetimes.len() ==> (#[trigger] e.lifetimes[k].1 as int) < b.types.len()
    &&& forall|k: int|
        0 <= k < e.lifetimes.len() ==> open_before(b.ops, #[trigger] e.lifetimes[k].1, b.ops.len() as int)
    &&& forall|k1: int, k2: int|
        0 <= k1 < e.lifetimes.len() && 0 <= k2 < e.lifetimes.len() && k1 != k2 ==> (#[trigger] e.lifetimes[k1]).1
            != (#[trigger] e.lifetimes[k2]).1
    &&& names_distinct(e.lifetimes)
}

/// `o2` is `o1` with more operations after it, none of which is a `qduc.end`.
pub open spec fn adds_no_end(o1: Seq<(usize, SOp)>, o2: Seq<(usize, SOp)>) -> bool {
    &&& o1.len() <= o2.len()
    &&& forall|j: int| 0 <= j < o1.len() ==> o2[j] == o1[j]
    &&& forall|j: int| o1.len() <= j < o2.len() ==> !(o2[j].1 is End)
}

/// A lifetime open after `o1` is still open after `o2`, when `o2` adds no `qduc.end`.
pub proof fn lemma_open_after_adds(o1: Seq<(usize, SOp)>, o2: Seq<(usize, SOp)>, t: usize)
    requires
        open_before(o1, t, o1.len() as int),
        adds_no_end(o1, o2),
    ensures
        open_before(o2, t, o2.len() as int),
{
    let j = choose|j: int| 0 <= j < o1.len() && #[trigger] opens_at(o1, j, t);
    assert(o2[j] == o1[j]);
    assert(opens_at(o2, j, t));
    assert forall|j: int| 0 <= j < o2.len() implies !#[trigger] ends_at(o2, j, t) by {
        if j < o1.len() {
            assert(o2[j] == o1[j]);
            assert(!ends_at(o1, j, t));
        } else {
            assert(!(o2[j].1 is End));
        }
    }
}

pub proof fn lemma_scope_lookup_in(sc: Seq<(Seq<char>, SLV)>, name: Seq<char>)
    ensures
        scope_lookup(sc, name) matches Some(v) ==> exists|j: int|
            0 <= j < sc.len() && sc[j].1 == v,
    decreases sc.len(),
{
    if sc.len() > 0 {
        if sc.last().0 == name {
            assert(sc[sc.len() - 1].1 == sc.last().1);
        } else {
            lemma_scope_lookup_in(sc.drop_last(), name);
            if let Some(v) = scope_lookup(sc, name) {
                let j = choose|j: int| 0 <= j < sc.drop_last().len() && sc.drop_last()[j].1 == v;
                assert(sc[j] == sc.drop_last()[j]);
            }
        }
    }
}

pub proof fn lemma_scopes_lookup_in(scopes: Seq<Seq<(Seq<char>, SLV)>>, name: Seq<char>)
    ensures
        scopes_lookup(scopes, name) matches Some(v) ==> exists|i: int, j: int|
            0 <= i < scopes.len() && 0 <= j < scopes[i].len() && scopes[i][j].1 == v,
    decreases scopes.len(),
{
    if scopes.len() > 0 {
        lemma_scope_lookup_in(scopes.last(), name);
        match scope_lookup(scopes.last(), name) {
            Some(v) => {
                let j = choose|j: int| 0 <= j < scopes.last().len() && scopes.last()[j].1 == v;
                assert(scopes[scopes.len() - 1][j].1 == v);
            },
            None => {
                lemma_scopes_lookup_in(scopes.drop_last(), name);
                if let Some(v) = scopes_lookup(scopes, name) {
                    let (i, j) = choose|i: int, j: int|
                        0 <= i < scopes.drop_last().len() && 0 <= j < scopes.drop_last()[i].len()
                            && scopes.drop_last()[i][j].1 == v;
                    assert(scopes[i] == scopes.drop_last()[i]);
                }
            },
        }
    }
}

/// A value found in a usable environment exists in the body.
pub proof fn lemma_lookup_ok(e: SEnv, b: SBody, name: Seq<char>)
    requires
        env_ok(e, b),
    ensures
        env_lookup(e, name) matches Some(v) ==> lv_ok(b, v),
{
    lemma_scopes_lookup_in(e.scopes, name);
    if let Some(v) = env_lookup(e, name) {
        let (i, j) = choose|i: int, j: int|
            0 <= i < e.scopes.len() && 0 <= j < e.scopes[i].len() && e.scopes[i][j].1 == v;
        assert(lv_ok(b, e.scopes[i][j].1));
    }
}

/// A usable environment stays usable as the body gets more values, and more
/// operations that end no lifetime.
pub proof fn lemma_env_ok_grow(e: SEnv, b1: SBody, b2: SBody)
    requires
        env_ok(e, b1),
        b1.types.len() <= b2.types.len(),
        adds_no_end(b1.ops, b2.ops),
    ensures
        env_ok(e, b2),
{
    assert forall|k: int| 0 <= k < e.lifetimes.len() implies open_before(
        b2.ops,
        #[trigger] e.lifetimes[k].1,
        b2.ops.len() as int,
    ) by {
        lemma_open_after_adds(b1.ops, b2.ops, e.lifetimes[k].1);
    }
    assert forall|i: int, j: int|
        0 <= i < e.scopes.len() && 0 <= j < e.scopes[i].len() implies #[trigger] lv_ok(
        b2,
        e.scopes[i][j].1,
    ) by {
        assert(lv_ok(b1, e.scopes[i][j].1));
    }
}

pub proof fn lemma_env_ok_push(e: SEnv, b: SBody)
    requires
        env_ok(e, b),
    ensures
        env_ok(env_push_scope(e), b),
        env_push_scope(e).scopes.len() == e.scopes.len() + 1,
{
    let e2 = env_push_scope(e);
    assert forall|i: int, j: int|
        0 <= i < e2.scopes.len() && 0 <= j < e2.scopes[i].len() implies #[trigger] lv_ok(
        b,
        e2.scopes[i][j].1,
    ) by {
        assert(i < e.scopes.len());
        assert(e2.scopes[i] == e.scopes[i]);
    }
}

pub proof fn lemma_env_ok_pop(e: SEnv, b: SBody)
    requires
        env_ok(e, b),
        e.scopes.len() > 1,
    ensures
        env_ok(env_pop_scope(e), b),
        env_pop_scope(e).scopes.len() == e.scopes.len() - 1,
{
    let e2 = env_pop_scope(e);
    assert forall|i: int, j: int|
        0 <= i < e2.scopes.len() && 0 <= j < e2.scopes[i].len() implies #[trigger] lv_ok(
        b,
        e2.scopes[i][j].1,
    ) by {
        assert(e2.scopes[i] == e.scopes[i]);
    }
}

pub proof fn lemma_env_ok_define(e: SEnv, b: SBody, name: Seq<char>, v: SLV)
    requires
        env_ok(e, b),
        lv_ok(b, v),
    ensures
        env_ok(env_define(e, name, v), b),
        env_define(e, name, v).scopes.len() == e.scopes.len(),
{
    let e2 = env_define(e, name, v);
    assert forall|i: int, j: int|
        0 <= i < e2.scopes.len() && 0 <= j < e2.scopes[i].len() implies #[trigger] lv_ok(
        b,
        e2.scopes[i][j].1,
    ) by {
        if i == e.scopes.len() - 1 {
            if j < e.scopes[i].len() {
                assert(e2.scopes[i][j] == e.scopes[i][j]);
            } else {
                assert(e2.scopes[i][j].1 == v);
            }
        } else {
            assert(e2.scopes[i] == e.scopes[i]);
        }
    }
}

pub proof fn lemma_env_ok_open(e: SEnv, b: SBody, name: Seq<char>, token: usize)
    requires
        env_ok(e, b),
        (token as int) < b.types.len(),
        open_before(b.ops, token, b.ops.len() as int),
        forall|k: int| 0 <= k < e.lifetimes.len() ==> (#[trigger] e.lifetimes[k]).1 != token,
    ensures
        env_ok(env_open_lifetime(e, name, token).1, b),
        env_open_lifetime(e, name, token).1.scopes == e.scopes,
{
    let e2 = env_open_lifetime(e, name, token).1;
    if env_open_lifetime(e, name, token).0 {
        let n = e.lifetimes.len() as int;
        assert(e2.lifetimes == e.lifetimes.push((name, token)));
        assert forall|k: int| 0 <= k < e2.lifetimes.len() implies (#[trigger] e2.lifetimes[k].1 as int)
            < b.types.len() && open_before(b.ops, e2.lifetimes[k].1, b.ops.len() as int) by {
            if k < n {
                assert(e2.lifetimes[k] == e.lifetimes[k]);
            }
        }
        crate::env::lemma_lifetime_index_exact(e.lifetimes, name);
        assert forall|k1: int, k2: int|
            0 <= k1 < e2.lifetimes.len() && 0 <= k2 < e2.lifetimes.len() && k1 != k2 implies (
            #[trigger] e2.lifetimes[k1]).1 != (#[trigger] e2.lifetimes[k2]).1 && e2.lifetimes[k1].0
            != e2.lifetimes[k2].0 by {
            if k1 < n {
                assert(e2.lifetimes[k1] == e.lifetimes[k1]);
            }
            if k2 < n {
                assert(e2.lifetimes[k2] == e.lifetimes[k2]);
            }
        }
    }
}

/// Closing a lifetime of a usable environment gives an open token that no
/// other lifetime of the environment has.
pub proof fn lemma_env_ok_close(e: SEnv, b: SBody, name: Seq<char>)
    requires
        env_ok(e, b),
    ensures
        env_ok(env_close_lifetime(e, name).1, b),
        env_close_lifetime(e, name).1.scopes == e.scopes,
        env_close_lifetime(e, name).0 matches Some(t) ==> {
            &&& (t as int) < b.types.len()
            &&& open_before(b.ops, t, b.ops.len() as int)
            &&& forall|k: int|
                0 <= k < env_close_lifetime(e, name).1.lifetimes.len() ==> (
                #[trigger] env_close_lifetime(e, name).1.lifetimes[k]).1 != t
        },
{
    crate::env::lemma_lifetime_index_bounds(e.lifetimes, name);
    let i = crate::env::lifetime_index(e.lifetimes, name);
    if i >= 0 {
        let e2 = env_close_lifetime(e, name).1;
        let t = e.lifetimes[i].1;
        assert((t as int) < b.types.len());
        assert(open_before(b.ops, e.lifetimes[i].1, b.ops.len() as int));
        assert forall|k: int| 0 <= k < e2.lifetimes.len() implies (#[trigger] e2.lifetimes[k].1
            as int) < b.types.len() && open_before(b.ops, e2.lifetimes[k].1, b.ops.len() as int) && e2.lifetimes[k].1 != t by {
            if k < i {
                assert(e2.lifetimes[k] == e.lifetimes[k]);
            } else {
                assert(e2.lifetimes[k] == e.lifetimes[k + 1]);
            }
        }
        assert forall|k1: int, k2: int|
            0 <= k1 < e2.lifetimes.len() && 0 <= k2 < e2.lifetimes.len() && k1 != k2 implies (
            #[trigger] e2.lifetimes[k1]).1 != (#[trigger] e2.lifetimes[k2]).1 by {
            let j1 = if k1 < i { k1 } else { k1 + 1 };
            let j2 = if k2 < i { k2 } else { k2 + 1 };
            assert(e2.lifetimes[k1] == e.lifetimes[j1]);
            assert(e2.lifetimes[k2] == e.lifetimes[j2]);
        }
        assert forall|k1: int, k2: int|
            0 <= k1 < e2.lifetimes.len() && 0 <= k2 < e2.lifetimes.len() && k1 != k2 implies (
            #[trigger] e2.lifetimes[k1]).0 != (#[trigger] e2.lifetimes[k2]).0 by {
            let j1 = if k1 < i { k1 } else { k1 + 1 };
            let j2 = if k2 < i { k2 } else { k2 + 1 };
            assert(e2.lifetimes[k1] == e.lifetimes[j1]);
            assert(e2.lifetimes[k2] == e.lifetimes[j2]);
        }
    }
}

/// After a `qduc.end` of a token that no lifetime of a usable environment
/// has, the environment is still usable.
pub proof fn lemma_env_ok_after_end(e: SEnv, b: SBody, blk: usize, t: usize)
    requires
        env_ok(e, b),
        forall|k: int| 0 <= k < e.lifetimes.len() ==> (#[trigger] e.lifetimes[k]).1 != t,
    ensures
        env_ok(e, with_op(b, blk, SOp::End { lifetime: t })),
{
    let b2 = with_op(b, blk, SOp::End { lifetime: t });
    assert(b2.types == b.types);
    assert forall|i: int, j: int|
        0 <= i < e.scopes.len() && 0 <= j < e.scopes[i].len() implies #[trigger] lv_ok(
        b2,
        e.scopes[i][j].1,
    ) by {
        assert(lv_ok(b, e.scopes[i][j].1));
    }
    assert forall|k: int| 0 <= k < e.lifetimes.len() implies open_before(
        b2.ops,
        #[trigger] e.lifetimes[k].1,
        b2.ops.len() as int,
    ) by {
        assert(e.lifetimes[k].1 != t);
        crate::ir::lemma_open_after_push(b.ops, (blk, SOp::End { lifetime: t }), e.lifetimes[k].1);
    }
}

/// The token of a lifetime of a usable environment is open.
pub proof fn lemma_env_lifetime_ok(e: SEnv, b: SBody, name: Seq<char>)
    requires
        env_ok(e, b),
    ensures
        env_lifetime(e, name) matches Some(t) ==> (t as int) < b.types.len() && open_before(
            b.ops,
            t,
            b.ops.len() as int,
        ),
{
    crate::env::lemma_lifetime_index_bounds(e.lifetimes, name);
    let i = crate::env::lifetime_index(e.lifetimes, name);
    if i >= 0 {
        assert((e.lifetimes[i].1 as int) < b.types.len());
        assert(open_before(b.ops, e.lifetimes[i].1, b.ops.len() as int));
    }
}

// ---------------------------------------------------------------- flattening laws

/// Rebuilding a value of a shape from values, then flattening it, gives back
/// exactly the values it took.
pub proof fn law_unflatten_then_flatten(shape: SShape, vals: Seq<usize>, pos: int)
    requires
        0 <= pos,
        pos + shape_len(shape) <= vals.len(),
    ensures
        flat(unflatten(shape, vals, pos).0) == vals.subrange(pos, pos + shape_len(shape)),
    decreases shape,
{
    match shape {
        SShape::Unit => {
            assert(flats(Seq::<SLV>::empty()) =~= Seq::<usize>::empty());
            assert(vals.subrange(pos, pos) =~= Seq::<usize>::empty());
        },
        SShape::Single => {
            assert(vals.subrange(pos, pos + 1) =~= seq![vals[pos]]);
        },
        SShape::Tuple(ss) => {
            lemma_unflattens_flat(ss, vals, pos);
        },
    }
}

pub proof fn lemma_unflattens_flat(ss: Seq<SShape>, vals: Seq<usize>, pos: int)
    requires
        0 <= pos,
        pos + shapes_len(ss) <= vals.len(),
    ensures
        flats(unflattens(ss, vals, pos).0) == vals.subrange(pos, pos + shapes_len(ss)),
    decreases ss,
{
    if ss.len() == 0 {
        assert(vals.subrange(pos, pos) =~= Seq::<usize>::empty());
    } else {
        let (vs, p1) = unflattens(ss.drop_last(), vals, pos);
        crate::value::lemma_unflattens_len(ss.drop_last(), vals, pos);
        lemma_unflattens_flat(ss.drop_last(), vals, pos);
        law_unflatten_then_flatten(ss.last(), vals, p1);
        let (v, p2) = unflatten(ss.last(), vals, p1);
        assert(vs.push(v).drop_last() =~= vs);
        assert(vals.subrange(pos, p1) + vals.subrange(p1, p1 + shape_len(ss.last())) =~= vals.subrange(
            pos,
            pos + shapes_len(ss),
        ));
    }
}


// ---------------------------------------------------------------- outcomes

/// The body has at least the values and blocks it had, and every operation
/// in it refers only to what exists in it.
pub open spec fn grows(b0: SBody, b: SBody) -> bool {
    &&& b0.types.len() <= b.types.len()
    &&& b0.blocks.len() <= b.blocks.len()
    &&& body_ok(b)
}

/// `r` with the environment `e` and body `b` after it is what `spec` gives
/// from `e0` and `b0`; on success the environment stays usable with the same
/// scopes, the value's IR values exist, and the body has grown as [`grows`] says.
pub open spec fn value_outcome(
    spec: Result<(SLV, SEnv, SBody), SLowerError>,
    r: Result<LoweredValue, LowerError>,
    e0: SEnv,
    b0: SBody,
    e: SEnv,
    b: SBody,
) -> bool {
    match spec {
        Ok((v, e2, b2)) => {
            &&& r matches Ok(rv) && lv_view(rv) == v
            &&& e == e2
            &&& b == b2
            &&& env_ok(e, b)
            &&& lv_ok(b, v)
            &&& grows(b0, b)
            &&& e.scopes.len() == e0.scopes.len()
        },
        Err(x) => r matches Err(rx) && err_view(rx) == x,
    }
}

pub open spec fn opt_lv_view(t: Option<LoweredValue>) -> Option<SLV> {
    match t {
        Some(v) => Some(lv_view(v)),
        None => None,
    }
}

pub open spec fn opt_lv_ok(b: SBody, t: Option<SLV>) -> bool {
    match t {
        Some(v) => lv_ok(b, v),
        None => true,
    }
}

/// Like [`value_outcome`], for the optional value of a block.
pub open spec fn block_outcome(
    spec: Result<(Option<SLV>, SEnv, SBody), SLowerError>,
    r: Result<Option<LoweredValue>, LowerError>,
    e0: SEnv,
    b0: SBody,
    e: SEnv,
    b: SBody,
) -> bool {
    match spec {
        Ok((t, e2, b2)) => {
            &&& r matches Ok(rt) && opt_lv_view(rt) == t
            &&& e == e2
            &&& b == b2
            &&& env_ok(e, b)
            &&& opt_lv_ok(b, t)
            &&& grows(b0, b)
            &&& e.scopes.len() == e0.scopes.len()
        },
        Err(x) => r matches Err(rx) && err_view(rx) == x,
    }
}

/// Like [`value_outcome`], for the flattened values of a branch.
pub open spec fn values_outcome(
    spec: Result<(Seq<usize>, SEnv, SBody), SLowerError>,
    r: Result<Vec<usize>, LowerError>,
    e0: SEnv,
    b0: SBody,
    e: SEnv,
    b: SBody,
) -> bool {
    match spec {
        Ok((vs, e2, b2)) => {
            &&& r matches Ok(rv) && rv@ == vs
            &&& e == e2
            &&& b == b2
            &&& env_ok(e, b)
            &&& all_defined(b, vs)
            &&& grows(b0, b)
            &&& e.scopes.len() == e0.scopes.len()
        },
        Err(x) => r matches Err(rx) && err_view(rx) == x,
    }
}

/// Like [`value_outcome`], for a statement.
pub open spec fn stmt_outcome(
    spec: Result<(SEnv, SBody), SLowerError>,
    r: Result<(), LowerError>,
    e0: SEnv,
    b0: SBody,
    e: SEnv,
    b: SBody,
) -> bool {
    match spec {
        Ok((e2, b2)) => {
            &&& r is Ok
            &&& e == e2
            &&& b == b2
            &&& env_ok(e, b)
            &&& grows(b0, b)
            &&& e.scopes.len() == e0.scopes.len()
        },
        Err(x) => r matches Err(rx) && err_view(rx) == x,
    }
}

/// Once lowering the arguments fails, lowering more of them fails the same way.
pub proof fn lemma_args_err(
    c: LCtx,
    e: SEnv,
    b: SBody,
    blk: usize,
    args: Seq<SPair>,
    k: int,
    k2: int,
)
    requires
        0 <= k <= k2 <= args.len(),
        spec_lower_args(c, e, b, blk, args, k) is Err,
    ensures
        spec_lower_args(c, e, b, blk, args, k2) == spec_lower_args(c, e, b, blk, args, k),
    decreases k2 - k,
{
    if k2 > k {
        lemma_args_err(c, e, b, blk, args, k, k2 - 1);
    }
}

/// Once lowering the items of a block fails, lowering more of them fails the same way.
pub proof fn lemma_items_err(
    c: LCtx,
    e: SEnv,
    b: SBody,
    blk: usize,
    cs: Seq<SPair>,
    k: int,
    k2: int,
)
    requires
        0 <= k <= k2 <= cs.len(),
        spec_lower_items(c, e, b, blk, cs, k) is Err,
    ensures
        spec_lower_items(c, e, b, blk, cs, k2) == spec_lower_items(c, e, b, blk, cs, k),
    decreases k2 - k,
{
    if k2 > k {
        lemma_items_err(c, e, b, blk, cs, k, k2 - 1);
    }
}

/// The IR values of a pair are those of its components.
pub proof fn lemma_flat_pair(l: SLV, r: SLV)
    ensures
        flat(SLV::Tuple(seq![l, r])) == flat(l) + flat(r),
{
    let s = seq![l, r];
    assert(s.drop_last() =~= seq![l]);
    assert(seq![l].drop_last() =~= Seq::<SLV>::empty());
    assert(flats(Seq::<SLV>::empty()) + flat(l) =~= flat(l));
    assert(flats(seq![l]) == flats(seq![l].drop_last()) + flat(seq![l].last()));
    assert(flats(seq![l]) == flat(l));
    assert(flats(s) == flats(s.drop_last()) + flat(s.last()));
    assert(flat(SLV::Tuple(s)) == flats(s));
}

/// The IR values of the value of an `scf.if` are its results.
pub proof fn lemma_flat_if_value(results: Seq<usize>)
    ensures
        flat(if_value(results)) == results,
{
    if results.len() == 0 {
        assert(flats(Seq::<SLV>::empty()) =~= results);
    } else if results.len() == 1 {
        assert(seq![results[0]] =~= results);
    } else {
        lemma_flats_singles(results);
    }
}

pub proof fn lemma_flats_singles(vs: Seq<usize>)
    ensures
        flats(vs.map_values(|v: usize| SLV::Single(v))) == vs,
    decreases vs.len(),
{
    let m = vs.map_values(|v: usize| SLV::Single(v));
    if vs.len() == 0 {
        assert(flats(m) =~= vs);
    } else {
        lemma_flats_singles(vs.drop_last());
        assert(m.drop_last() =~= vs.drop_last().map_values(|v: usize| SLV::Single(v)));
        assert(vs.drop_last() + seq![vs.last()] =~= vs);
        assert(m.last() == SLV::Single(vs.last()));
        assert(flat(m.last()) == seq![vs.last()]);
        assert(flats(m) == flats(m.drop_last()) + flat(m.last()));
    }
}

} // verus!
