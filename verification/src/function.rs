//! Lowering of a function: collecting its signature, then lowering its body.
use vstd::prelude::*;

use crate::block::lower_block_body;
use crate::env::{Env, SEnv, env_define, env_new};
use crate::error::{LowerError, SLowerError, err_view};
use crate::grammar::{
    Rule, Word, kw, spec_function, spec_ident, spec_lifetime_preorder, spec_param_list,
    spec_signature, within, ws,
};
use crate::ir::{Body, Op, SBody, SOp, Ty, body_ok, copy_tys, lemma_body_ok_append, numbers, op_ok, with_op};
use crate::lowering::{
    LCtx, env_ok, lemma_env_ok_define, lemma_env_ok_grow, law_unflatten_then_flatten, lv_ok, or_unit,
    spec_lower_block_body,
};
use crate::program::Lowerer;
use crate::signature::{FunctionSignature, SSig, sig_ok, sig_view, sigs_ok};
use crate::ty::{lower_ty, shape_of_ty, spec_lower_ty, spec_shape_of_ty, tys_result_view};
use crate::tree::{Pair, SPair, lemma_pair_view_children, pair_view, text_of};
use crate::value::{
    LoweredValue, SShape, Shape, flat, lv_view, shape_len, shape_view, shapes_len, unflatten,
    lemma_unflatten_len, unit_lv,
};

verus! {

/// The `param_list` node of a `function` node: the first child of its
/// signature, or the second when the first is a lifetime preorder.
pub open spec fn spec_param_list_pair(f: SPair) -> Option<SPair> {
    if f.children.len() < 2 || f.children[1].children.len() == 0 {
        None
    } else {
        let sig = f.children[1];
        if sig.children[0].rule == Rule::lifetime_preorder {
            if sig.children.len() >= 2 {
                Some(sig.children[1])
            } else {
                None
            }
        } else {
            Some(sig.children[0])
        }
    }
}

/// The parameters `ps[0..k]`: their names, shapes and flattened types.
pub open spec fn spec_collect_params(s: Seq<char>, ps: Seq<SPair>, k: int) -> Result<
    (Seq<Seq<char>>, Seq<SShape>, Seq<Ty>),
    SLowerError,
>
    decreases k,
{
    if k <= 0 || k > ps.len() {
        Ok((Seq::empty(), Seq::empty(), Seq::empty()))
    } else {
        match spec_collect_params(s, ps, k - 1) {
            Err(x) => Err(x),
            Ok((names, shapes, types)) => {
                let p = ps[k - 1];
                if p.children.len() < 2 {
                    Err(SLowerError::UnsupportedType(text_of(s, p)))
                } else {
                    match spec_lower_ty(s, p.children[1]) {
                        Err(x) => Err(x),
                        Ok(ts) => Ok(
                            (
                                names.push(text_of(s, p.children[0])),
                                shapes.push(spec_shape_of_ty(p.children[1])),
                                types + ts,
                            ),
                        ),
                    }
                }
            },
        }
    }
}

/// The name and signature of a `function` node, collected without lowering
/// its body: its parameters' names, shapes and types, then the shape and
/// types of its return type.
pub open spec fn spec_collect_signature(s: Seq<char>, f: SPair) -> Result<
    (Seq<char>, SSig),
    SLowerError,
> {
    match spec_param_list_pair(f) {
        None => Err(SLowerError::UnsupportedType(text_of(s, f))),
        Some(pl) => {
            let sig_node = f.children[1];
            match spec_collect_params(s, pl.children, pl.children.len() as int) {
                Err(x) => Err(x),
                Ok((names, shapes, types)) => {
                    let ret = sig_node.children.last();
                    match spec_lower_ty(s, ret) {
                        Err(x) => Err(x),
                        Ok(rts) => Ok(
                            (
                                text_of(s, f.children[0]),
                                SSig {
                                    param_names: names,
                                    param_shapes: shapes,
                                    param_types: types,
                                    result_types: rts,
                                    result_shape: spec_shape_of_ty(ret),
                                },
                            ),
                        ),
                    }
                },
            }
        },
    }
}

/// The `param_list` node of a `function` node.
fn param_list_pair(function_pair: &Pair) -> (r: Option<&Pair>)
    ensures
        match r {
            Some(p) => spec_param_list_pair(pair_view(*function_pair)) == Some(pair_view(*p)),
            None => spec_param_list_pair(pair_view(*function_pair)) is None,
        },
{
    proof {
        lemma_pair_view_children(*function_pair);
    }
    if function_pair.children.len() < 2 {
        return None;
    }
    let signature_pair = &function_pair.children[1];
    proof {
        lemma_pair_view_children(*signature_pair);
    }
    if signature_pair.children.len() == 0 {
        return None;
    }
    let first = &signature_pair.children[0];
    if first.rule == Rule::lifetime_preorder {
        if signature_pair.children.len() >= 2 {
            Some(&signature_pair.children[1])
        } else {
            None
        }
    } else {
        Some(first)
    }
}

/// First pass: collects a function's signature without lowering its body,
/// so that calls resolve whatever the order of declarations.
#[verifier::loop_isolation(false)]
pub fn collect_signature(function_pair: &Pair, input: &str) -> (r: Result<
    (String, FunctionSignature),
    LowerError,
>)
    ensures
        match spec_collect_signature(input@, pair_view(*function_pair)) {
            Ok((name, sig)) => r matches Ok((rn, rs)) && rn@ == name && sig_view(rs) == sig,
            Err(x) => r matches Err(rx) && err_view(rx) == x,
        },
{
    let ghost s = input@;
    let pl = match param_list_pair(function_pair) {
        None => return Err(LowerError::UnsupportedType(function_pair.text(input))),
        Some(p) => p,
    };
    proof {
        lemma_pair_view_children(*function_pair);
        lemma_pair_view_children(*pl);
        lemma_pair_view_children(function_pair.children@[1]);
    }
    let ghost ps = pair_view(*pl).children;
    let mut param_names: Vec<String> = Vec::new();
    let mut param_shapes: Vec<Shape> = Vec::new();
    let mut param_types: Vec<Ty> = Vec::new();
    let mut i: usize = 0;
    proof {
        assert(param_names@.map_values(|n: String| n@) =~= Seq::<Seq<char>>::empty());
        assert(param_shapes@.map_values(|sh: Shape| shape_view(sh)) =~= Seq::<SShape>::empty());
    }
    while i < pl.children.len()
        invariant
            i <= pl.children@.len(),
            ps == pair_view(*pl).children,
            ps.len() == pl.children@.len(),
            forall|j: int| 0 <= j < ps.len() ==> ps[j] == pair_view(pl.children@[j]),
            spec_collect_params(s, ps, i as int) == Ok::<
                (Seq<Seq<char>>, Seq<SShape>, Seq<Ty>),
                SLowerError,
            >(
                (
                    param_names@.map_values(|n: String| n@),
                    param_shapes@.map_values(|sh: Shape| shape_view(sh)),
                    param_types@,
                ),
            ),
        decreases pl.children@.len() - i,
    {
        let param = &pl.children[i];
        proof {
            lemma_pair_view_children(*param);
            assert(ps[i as int] == pair_view(*param));
        }
        if param.children.len() < 2 {
            proof {
                lemma_collect_params_err(s, ps, i + 1, ps.len() as int);
            }
            return Err(LowerError::UnsupportedType(param.text(input)));
        }
        let ty_pair = &param.children[1];
        let mut tys = match lower_ty(ty_pair, input) {
            Ok(t) => t,
            Err(x) => {
                proof {
                    lemma_collect_params_err(s, ps, i + 1, ps.len() as int);
                }
                return Err(x);
            },
        };
        let ghost old_names = param_names@;
        let ghost old_shapes = param_shapes@;
        let ghost old_types = param_types@;
        let shape = shape_of_ty(ty_pair);
        let ghost gshape = shape;
        param_shapes.push(shape);
        param_types.append(&mut tys);
        let name = param.children[0].text(input);
        let ghost gname = name;
        param_names.push(name);
        proof {
            assert(param_names@.map_values(|n: String| n@) =~= old_names.map_values(
                |n: String| n@,
            ).push(gname@));
            assert(param_shapes@.map_values(|sh: Shape| shape_view(sh)) =~= old_shapes.map_values(
                |sh: Shape| shape_view(sh),
            ).push(shape_view(gshape)));
        }
        i = i + 1;
    }
    proof {
        assert(ps.take(ps.len() as int) =~= ps);
    }
    let signature_pair = &function_pair.children[1];
    let return_ty_pair = &signature_pair.children[signature_pair.children.len() - 1];
    let result_types = match lower_ty(return_ty_pair, input) {
        Ok(t) => t,
        Err(x) => return Err(x),
    };
    let result_shape = shape_of_ty(return_ty_pair);
    let name = function_pair.children[0].text(input);
    Ok(
        (
            name,
            FunctionSignature { param_names, param_shapes, param_types, result_types, result_shape },
        ),
    )
}

/// Once collecting the parameters fails, collecting more fails the same way.
pub proof fn lemma_collect_params_err(s: Seq<char>, ps: Seq<SPair>, k: int, k2: int)
    requires
        0 <= k <= k2 <= ps.len(),
        spec_collect_params(s, ps, k) is Err,
    ensures
        spec_collect_params(s, ps, k2) == spec_collect_params(s, ps, k),
    decreases k2 - k,
{
    if k2 > k {
        lemma_collect_params_err(s, ps, k, k2 - 1);
    }
}


// ---------------------------------------------------------------- signature laws

/// A type's shape has as many values as the type lowers to.
pub proof fn law_shape_matches_types(s: Seq<char>, n: SPair)
    ensures
        spec_lower_ty(s, n) matches Ok(ts) ==> shape_len(spec_shape_of_ty(n)) == ts.len(),
    decreases n,
{
    if n.children.len() > 0 {
        let inner = n.children[0];
        if inner.rule == Rule::product_ty && inner.children.len() >= 2 {
            law_shape_matches_types(s, inner.children[0]);
            law_shape_matches_types(s, inner.children[1]);
            let ss = seq![spec_shape_of_ty(inner.children[0]), spec_shape_of_ty(inner.children[1])];
            assert(ss.drop_last() =~= seq![spec_shape_of_ty(inner.children[0])]);
            assert(ss.drop_last().drop_last() =~= Seq::<SShape>::empty());
            assert(shapes_len(ss.drop_last()) == shapes_len(ss.drop_last().drop_last()) + shape_len(
                ss.drop_last().last(),
            ));
            assert(shapes_len(ss) == shapes_len(ss.drop_last()) + shape_len(ss.last()));
        }
    }
}

/// Collected parameters have one name and one shape each, and as many
/// types as their shapes have values.
pub proof fn lemma_collect_params_ok(s: Seq<char>, ps: Seq<SPair>, k: int)
    ensures
        spec_collect_params(s, ps, k) matches Ok((names, shapes, types)) ==> names.len()
            == shapes.len() && shapes_len(shapes) == types.len(),
    decreases k,
{
    if 0 < k <= ps.len() {
        lemma_collect_params_ok(s, ps, k - 1);
        let p = ps[k - 1];
        if p.children.len() >= 2 {
            law_shape_matches_types(s, p.children[1]);
            if let Ok((names, shapes, types)) = spec_collect_params(s, ps, k - 1) {
                let sh = spec_shape_of_ty(p.children[1]);
                assert(shapes.push(sh).drop_last() =~= shapes);
            }
        }
    }
}

/// Every signature that is collected agrees with itself: see [`sig_ok`].
pub proof fn lemma_collect_signature_ok(s: Seq<char>, f: SPair)
    ensures
        spec_collect_signature(s, f) matches Ok((_, sig)) ==> sig_ok(sig),
{
    if let Some(pl) = spec_param_list_pair(f) {
        lemma_collect_params_ok(s, pl.children, pl.children.len() as int);
        law_shape_matches_types(s, f.children[1].children.last());
    }
}

/// The parameter list of a function node that the parser gives is the
/// `param_list` node of its signature, whether or not a lifetime preorder
/// comes before it; so the parameters collected are exactly its `param`
/// nodes, and a preorder adds none.
pub proof fn law_param_list_is_the_param_list_node(s: Seq<char>, p: int)
    ensures
        spec_function(s, p) matches Some((_, f)) ==> (spec_param_list_pair(f) matches Some(pl)
            && pl.rule == Rule::param_list && f.children[1].rule == Rule::signature
            && f.children[1].children.contains(pl)),
{
    if let Some(p1) = kw(s, p, Word::Fn) {
        let q1 = ws(s, p1);
        if let Some((e1, name)) = within(s, q1, spec_ident(s, q1)) {
            let q2 = ws(s, e1);
            if let Some((e2, sig)) = within(s, q2, spec_signature(s, q2)) {
                let (q1s, pre) = match within(s, q2, spec_lifetime_preorder(s, q2)) {
                    Some((e0, lp)) => (ws(s, e0), seq![lp]),
                    None => (q2, seq![]),
                };
                if let Some((e3, params)) = within(s, q1s, spec_param_list(s, q1s)) {
                    let cs = sig.children;
                    if pre.len() == 1 {
                        assert(cs[0] == pre[0]);
                        assert(cs[1] == params);
                    } else {
                        assert(cs[0] == params);
                    }
                }
            }
        }
    }
}

/// Each of the parameter nodes `ps[0..k]` has a type, and that type lowers.
pub open spec fn params_lower(s: Seq<char>, ps: Seq<SPair>, k: int) -> bool {
    forall|i: int|
        0 <= i < k ==> (#[trigger] ps[i]).children.len() >= 2 && spec_lower_ty(s, ps[i].children[1]) is Ok
}

proof fn lemma_collect_params_iff(s: Seq<char>, ps: Seq<SPair>, k: int)
    requires
        0 <= k <= ps.len(),
    ensures
        spec_collect_params(s, ps, k) is Ok <==> params_lower(s, ps, k),
        spec_collect_params(s, ps, k) matches Ok((names, _, _)) ==> names.len() == k,
    decreases k,
{
    if k > 0 {
        lemma_collect_params_iff(s, ps, k - 1);
        if params_lower(s, ps, k) {
            assert(params_lower(s, ps, k - 1));
        }
        if spec_collect_params(s, ps, k) is Ok {
            assert forall|i: int| 0 <= i < k implies (#[trigger] ps[i]).children.len() >= 2
                && spec_lower_ty(s, ps[i].children[1]) is Ok by {
                if i < k - 1 {
                    assert(params_lower(s, ps, k - 1));
                }
            }
        }
    }
}

/// Collecting a signature fails exactly when the function has no parameter
/// list, or a parameter lacks a type or its type does not lower, or the
/// return type does not lower. What it collects is the function's name, one
/// name and shape per parameter, as many parameter types as the shapes have
/// values, and as many result types as the result shape has values.
pub proof fn law_collect_signature_fails_exactly_when_a_type_fails(s: Seq<char>, f: SPair)
    ensures
        spec_collect_signature(s, f) is Ok <==> (spec_param_list_pair(f) matches Some(pl) && params_lower(
            s,
            pl.children,
            pl.children.len() as int,
        ) && spec_lower_ty(s, f.children[1].children.last()) is Ok),
        spec_collect_signature(s, f) matches Ok((name, sig)) ==> {
            &&& name == text_of(s, f.children[0])
            &&& sig.param_names.len() == spec_param_list_pair(f)->Some_0.children.len()
            &&& sig_ok(sig)
        },
{
    lemma_collect_signature_ok(s, f);
    if let Some(pl) = spec_param_list_pair(f) {
        lemma_collect_params_iff(s, pl.children, pl.children.len() as int);
    }
}

// ---------------------------------------------------------------- function bodies

/// A lowered function: its name, its type, and its body, whose block 0 is the
/// entry block with one argument per parameter type.
pub struct LoweredFunction {
    pub name: String,
    pub param_types: Vec<Ty>,
    pub result_types: Vec<Ty>,
    pub body: Body,
}

/// Model of a [`LoweredFunction`].
pub struct SFunction {
    pub name: Seq<char>,
    pub param_types: Seq<Ty>,
    pub result_types: Seq<Ty>,
    pub body: SBody,
}

pub open spec fn function_view(f: LoweredFunction) -> SFunction {
    SFunction {
        name: f.name@,
        param_types: f.param_types@,
        result_types: f.result_types@,
        body: f.body@,
    }
}

/// The body of a function before its statements: the entry block, whose
/// arguments are the values `0..n`, one per parameter type.
pub open spec fn entry_body(param_types: Seq<Ty>) -> SBody {
    SBody {
        ops: Seq::empty(),
        types: param_types,
        blocks: seq![numbers(0, param_types.len() as int)],
    }
}

/// The environment with the parameters `names[0..k]` bound, each to its
/// values taken in order from `args` and regrouped by its shape; and the
/// position in `args` after them.
pub open spec fn spec_bind_params(
    e: SEnv,
    names: Seq<Seq<char>>,
    shapes: Seq<SShape>,
    args: Seq<usize>,
    k: int,
) -> (SEnv, int)
    decreases k,
{
    if k <= 0 || k > names.len() || k > shapes.len() {
        (e, 0)
    } else {
        let (e1, pos) = spec_bind_params(e, names, shapes, args, k - 1);
        let (v, p2) = unflatten(shapes[k - 1], args, pos);
        (env_define(e1, names[k - 1], v), p2)
    }
}

/// The number of parameters that are bound: one per name that has a shape.
pub open spec fn param_count(sig: SSig) -> int {
    if sig.param_names.len() <= sig.param_shapes.len() {
        sig.param_names.len() as int
    } else {
        sig.param_shapes.len() as int
    }
}

/// Lowering a `function` node with its signature: each parameter bound to
/// its entry block arguments, then the body lowered into the entry block and
/// ended by a `func.return` of the value of the body.
pub open spec fn spec_lower_function(c: LCtx, sig: SSig, f: SPair) -> Result<SFunction, SLowerError> {
    if f.children.len() < 3 {
        Err(SLowerError::UnsupportedStmt(f.rule, text_of(c.s, f)))
    } else {
        let b0 = entry_body(sig.param_types);
        let args = numbers(0, sig.param_types.len() as int);
        let (e0, _) = spec_bind_params(
            env_new(),
            sig.param_names,
            sig.param_shapes,
            args,
            param_count(sig),
        );
        match spec_lower_block_body(c, e0, b0, 0, f.children[2]) {
            Err(x) => Err(x),
            Ok((t, _, b1)) => Ok(
                SFunction {
                    name: text_of(c.s, f.children[0]),
                    param_types: sig.param_types,
                    result_types: sig.result_types,
                    body: with_op(b1, 0, SOp::Return { values: flat(or_unit(t)) }),
                },
            ),
        }
    }
}

/// Second pass: lowers a function's body, given its collected signature (so
/// that calls to any function of the program resolve).
#[verifier::loop_isolation(false)]
pub fn lower_function(
    lowerer: &Lowerer,
    signature: &FunctionSignature,
    function_pair: &Pair,
) -> (r: Result<LoweredFunction, LowerError>)
    requires
        sigs_ok(lowerer.ctx().sigs),
        sig_ok(sig_view(*signature)),
    ensures
        match spec_lower_function(lowerer.ctx(), sig_view(*signature), pair_view(*function_pair)) {
            Ok(f) => r matches Ok(rf) && function_view(rf) == f,
            Err(x) => r matches Err(rx) && err_view(rx) == x,
        },
        r matches Ok(rf) ==> body_ok(rf.body@),
{
    let input = lowerer.input;
    proof {
        lemma_pair_view_children(*function_pair);
    }
    if function_pair.children.len() < 3 {
        return Err(LowerError::UnsupportedStmt(function_pair.rule, function_pair.text(input)));
    }
    let ghost sig = sig_view(*signature);
    let name = function_pair.children[0].text(input);
    let mut body = Body::new(&signature.param_types);
    let n = signature.param_types.len();
    let mut args: Vec<usize> = Vec::new();
    let mut k: usize = 0;
    while k < n
        invariant
            k <= n,
            n == sig.param_types.len(),
            args@ == numbers(0, k as int),
        decreases n - k,
    {
        args.push(k);
        proof {
            assert(args@ =~= numbers(0, k + 1));
        }
        k = k + 1;
    }
    let mut env = Env::new();
    let mut pos: usize = 0;
    let mut i: usize = 0;
    let ghost b0 = body@;
    proof {
        assert(b0.ops =~= Seq::<(usize, SOp)>::empty());
        assert(b0 == entry_body(sig.param_types));
        assert(sig.param_shapes.take(0) =~= Seq::<SShape>::empty());
    }
    while i < signature.param_names.len() && i < signature.param_shapes.len()
        invariant
            i <= sig.param_names.len(),
            i <= sig.param_shapes.len(),
            body@ == b0,
            args@ == numbers(0, n as int),
            (env@, pos as int) == spec_bind_params(
                env_new(),
                sig.param_names,
                sig.param_shapes,
                args@,
                i as int,
            ),
            pos as int == shapes_len(sig.param_shapes.take(i as int)),
            env_ok(env@, body@),
        decreases sig.param_names.len() - i,
    {
        proof {
            assert(sig.param_shapes.take(i + 1).drop_last() =~= sig.param_shapes.take(i as int));
            crate::value::lemma_shapes_len_prefix(sig.param_shapes, i + 1);
            assert(sig.param_shapes.take(i + 1).last() == sig.param_shapes[i as int]);
            lemma_unflatten_len(sig.param_shapes[i as int], args@, pos as int);
            law_unflatten_then_flatten(sig.param_shapes[i as int], args@, pos as int);
        }
        let ghost gpos = pos;
        let value = signature.param_shapes[i].unflatten(&args, &mut pos);
        proof {
            let vals = flat(lv_view(value));
            assert(vals == args@.subrange(gpos as int, pos as int));
            assert forall|j: int| 0 <= j < vals.len() implies (vals[j] as int) < body@.types.len() by {
                assert(vals[j] == args@[gpos + j]);
            }
            lemma_env_ok_define(env@, body@, sig.param_names[i as int], lv_view(value));
        }
        env.define(signature.param_names[i].clone(), value);
        i = i + 1;
    }
    proof {
        assert(body_ok(body@));
    }
    let trailing = match lower_block_body(lowerer, &mut env, &mut body, 0, &function_pair.children[2]) {
        Ok(t) => t,
        Err(x) => return Err(x),
    };
    proof {
        assert(flat(unit_lv()) =~= Seq::<usize>::empty());
    }
    let v = match trailing {
        Some(v) => v,
        None => LoweredValue::unit(),
    };
    let return_values = v.flatten();
    proof {
        assert(op_ok(body@, (0usize, SOp::Return { values: return_values@ })));
        lemma_body_ok_append(body@, 0, SOp::Return { values: return_values@ });
    }
    body.append(0, Op::Return { values: return_values });
    Ok(
        LoweredFunction {
            name,
            param_types: copy_tys(&signature.param_types),
            result_types: copy_tys(&signature.result_types),
            body,
        },
    )
}

} // verus!
