//! Lowering of expressions.
use vstd::prelude::*;
use vstd::string::StringExecFns;

use crate::block::lower_block_body;
use crate::env::Env;
use crate::error::LowerError;
use crate::grammar::Rule;
use crate::ir::{Body, Op, SOp, Ty, body_ok, copy_values, lemma_body_ok_append, lemma_body_ok_grow, op_ok};
use crate::lowering::{
    env_ok, grows, if_value, lemma_args_err, lemma_env_ok_grow, lemma_env_ok_pop,
    lemma_env_ok_push, lemma_flat_if_value, lemma_flat_pair, lemma_lookup_ok,
    law_unflatten_then_flatten, lv_ok, opt_lv_view, spec_lower_args, spec_lower_branch, spec_lower_call,
    spec_call_error_state, spec_expr_fails_early, spec_lower_expr, spec_lower_if, value_outcome,
    values_outcome,
};
use crate::program::Lowerer;
use crate::signature::{lemma_sig_lookup_ok, lookup_signature, sigs_ok};
use crate::tree::{Pair, lemma_pair_view_children, pair_view};
use crate::value::{LoweredValue, SLV, flat, lv_view, lvs_view, unit_lv};

verus! {

/// Lowers an `expr` node into `block`.
pub fn lower_expr(
    lowerer: &Lowerer,
    env: &mut Env,
    body: &mut Body,
    block: usize,
    pair: &Pair,
) -> (r: Result<LoweredValue, LowerError>)
    requires
        sigs_ok(lowerer.ctx().sigs),
        env_ok(old(env)@, old(body)@),
        body_ok(old(body)@),
        (block as int) < old(body)@.blocks.len(),
    ensures
        value_outcome(
            spec_lower_expr(lowerer.ctx(), old(env)@, old(body)@, block, pair_view(*pair)),
            r,
            old(env)@,
            old(body)@,
            final(env)@,
            final(body)@,
        ),
        spec_expr_fails_early(lowerer.ctx(), old(env)@, pair_view(*pair)) ==> final(env)@ == old(env)@
            && final(body)@ == old(body)@,
    decreases pair_view(*pair), 3int,
{
    let input = lowerer.input;
    let text = pair.text(input);
    proof {
        lemma_pair_view_children(*pair);
    }
    if pair.children.len() == 0 {
        return Err(LowerError::UnsupportedExpr(pair.rule, text));
    }
    let inner = &pair.children[0];
    proof {
        lemma_pair_view_children(*inner);
    }
    if inner.rule == Rule::lit_bool {
        let value = inner.text(input) == String::from_str("true");
        let ghost e0 = env@;
        let ghost b0 = body@;
        let v = body.new_value(Ty::I1);
        proof {
            let b1 = body@;
            lemma_body_ok_grow(b0, b1);
            assert(op_ok(b1, (block, SOp::Constant { result: v, value })));
            lemma_body_ok_append(b1, block, SOp::Constant { result: v, value });
        }
        body.append(block, Op::Constant { result: v, value });
        proof {
            lemma_env_ok_grow(e0, b0, body@);
        }
        Ok(LoweredValue::single(v))
    } else if inner.rule == Rule::lit_unit {
        proof {
            assert(flat(unit_lv()) =~= Seq::<usize>::empty());
        }
        Ok(LoweredValue::unit())
    } else if inner.rule == Rule::tuple_expr {
        if inner.children.len() < 2 {
            return Err(LowerError::UnsupportedExpr(inner.rule, text));
        }
        let lhs = match lower_expr(lowerer, env, body, block, &inner.children[0]) {
            Ok(v) => v,
            Err(x) => return Err(x),
        };
        let ghost b1 = body@;
        let rhs = match lower_expr(lowerer, env, body, block, &inner.children[1]) {
            Ok(v) => v,
            Err(x) => return Err(x),
        };
        let ghost gl = lhs;
        let ghost gr = rhs;
        let mut v: Vec<LoweredValue> = Vec::new();
        v.push(lhs);
        v.push(rhs);
        proof {
            assert(lvs_view(v@) =~= seq![lv_view(gl), lv_view(gr)]);
            lemma_flat_pair(lv_view(gl), lv_view(gr));
            assert(lv_ok(body@, lv_view(gl)));
        }
        Ok(LoweredValue::tuple(v))
    } else if inner.rule == Rule::ident {
        let name = inner.text(input);
        proof {
            lemma_lookup_ok(env@, body@, name@);
        }
        match env.lookup(&name) {
            Some(v) => Ok(v),
            None => Err(LowerError::UndefinedVariable(name)),
        }
    } else if inner.rule == Rule::call_expr {
        lower_call(lowerer, env, body, block, inner)
    } else if inner.rule == Rule::if_expr {
        lower_if(lowerer, env, body, block, inner)
    } else if inner.rule == Rule::block {
        proof {
            lemma_env_ok_push(env@, body@);
        }
        env.push_scope();
        let result = lower_block_body(lowerer, env, body, block, inner);
        let ghost e1 = env@;
        env.pop_scope();
        match result {
            Err(x) => Err(x),
            Ok(t) => {
                proof {
                    lemma_env_ok_pop(e1, body@);
                    assert(flat(unit_lv()) =~= Seq::<usize>::empty());
                }
                match t {
                    Some(v) => Ok(v),
                    None => Ok(LoweredValue::unit()),
                }
            },
        }
    } else {
        Err(LowerError::UnsupportedExpr(inner.rule, text))
    }
}

/// Lowers a `call_expr` node: the arguments in order, then a `func.call` of
/// the callee's signature.
#[verifier::loop_isolation(false)]
pub fn lower_call(
    lowerer: &Lowerer,
    env: &mut Env,
    body: &mut Body,
    block: usize,
    pair: &Pair,
) -> (r: Result<LoweredValue, LowerError>)
    requires
        sigs_ok(lowerer.ctx().sigs),
        env_ok(old(env)@, old(body)@),
        body_ok(old(body)@),
        (block as int) < old(body)@.blocks.len(),
    ensures
        value_outcome(
            spec_lower_call(lowerer.ctx(), old(env)@, old(body)@, block, pair_view(*pair)),
            r,
            old(env)@,
            old(body)@,
            final(env)@,
            final(body)@,
        ),
        spec_lower_call(lowerer.ctx(), old(env)@, old(body)@, block, pair_view(*pair)) is Err
            ==> (spec_call_error_state(lowerer.ctx(), old(env)@, old(body)@, block, pair_view(*pair))
            matches Some((e2, b2)) ==> final(env)@ == e2 && final(body)@ == b2),
    decreases pair_view(*pair), 2int,
{
    let input = lowerer.input;
    proof {
        lemma_pair_view_children(*pair);
    }
    if pair.children.len() < 2 {
        return Err(LowerError::UnsupportedExpr(pair.rule, pair.text(input)));
    }
    let callee_name = pair.children[0].text(input);
    let arg_list = &pair.children[1];
    proof {
        lemma_pair_view_children(*arg_list);
    }
    let ghost c = lowerer.ctx();
    let ghost e0 = env@;
    let ghost b0 = body@;
    let ghost args = pair_view(*arg_list).children;
    let mut operands: Vec<usize> = Vec::new();
    let mut i: usize = 0;
    while i < arg_list.children.len()
        invariant
            i <= arg_list.children@.len(),
            spec_lower_args(c, e0, b0, block, args, i as int) == Ok::<
                (Seq<usize>, crate::env::SEnv, crate::ir::SBody),
                crate::error::SLowerError,
            >((operands@, env@, body@)),
            env_ok(env@, body@),
            crate::ir::all_defined(body@, operands@),
            grows(b0, body@),
            env@.scopes.len() == e0.scopes.len(),
        decreases arg_list.children@.len() - i,
    {
        let ghost b1 = body@;
        proof {
            let pv = pair_view(*pair);
            assert(pv.children[1] == pair_view(*arg_list));
            assert(pair_view(*arg_list).children[i as int] == pair_view(arg_list.children@[i as int]));
            assert(decreases_to!(pv => pv.children[1]));
            assert(decreases_to!(pv.children[1] => pv.children[1].children[i as int]));
        }
        let v = match lower_expr(lowerer, env, body, block, &arg_list.children[i]) {
            Ok(v) => v,
            Err(x) => {
                proof {
                    lemma_args_err(c, e0, b0, block, args, i + 1, args.len() as int);
                }
                return Err(x);
            },
        };
        let mut part = v.flatten();
        operands.append(&mut part);
        i = i + 1;
    }
    let sig = match lookup_signature(lowerer.signatures, &callee_name) {
        None => return Err(LowerError::UndefinedVariable(callee_name)),
        Some(s) => s,
    };
    proof {
        lemma_sig_lookup_ok(c.sigs, callee_name@);
    }
    let ghost b2 = body@;
    let results = body.new_values(&sig.result_types);
    proof {
        let b3 = body@;
        let op = SOp::Call { callee: callee_name@, operands: operands@, results: results@ };
        lemma_body_ok_grow(b2, b3);
        assert(op_ok(b3, (block, op)));
        lemma_body_ok_append(b3, block, op);
    }
    body.append(
        block,
        Op::Call { callee: callee_name, operands, results: copy_values(&results) },
    );
    let mut pos: usize = 0;
    let v = sig.result_shape.unflatten(&results, &mut pos);
    proof {
        law_unflatten_then_flatten(crate::value::shape_view(sig.result_shape), results@, 0);
        assert(results@.subrange(0, results@.len() as int) =~= results@);
        lemma_env_ok_grow(env@, b2, body@);
    }
    Ok(v)
}

/// Lowers one branch of an `if` into `block`, in a scope of its own; gives
/// the flattened values of the branch.
pub fn lower_branch(
    lowerer: &Lowerer,
    env: &mut Env,
    body: &mut Body,
    block: usize,
    pair: &Pair,
) -> (r: Result<Vec<usize>, LowerError>)
    requires
        sigs_ok(lowerer.ctx().sigs),
        env_ok(old(env)@, old(body)@),
        body_ok(old(body)@),
        (block as int) < old(body)@.blocks.len(),
    ensures
        values_outcome(
            spec_lower_branch(lowerer.ctx(), old(env)@, old(body)@, block, pair_view(*pair)),
            r,
            old(env)@,
            old(body)@,
            final(env)@,
            final(body)@,
        ),
    decreases pair_view(*pair), 1int,
{
    proof {
        lemma_env_ok_push(env@, body@);
    }
    env.push_scope();
    let result = lower_block_body(lowerer, env, body, block, pair);
    let ghost e1 = env@;
    env.pop_scope();
    match result {
        Err(x) => Err(x),
        Ok(t) => {
            proof {
                lemma_env_ok_pop(e1, body@);
                assert(flat(unit_lv()) =~= Seq::<usize>::empty());
            }
            let v = match t {
                Some(v) => v,
                None => LoweredValue::unit(),
            };
            Ok(v.flatten())
        },
    }
}

/// Lowers an `if_expr` node: both branches into blocks of their own ended by
/// `scf.yield`, then an `scf.if` whose results have the types of the `then`
/// values.
#[verifier::rlimit(30)]
pub fn lower_if(
    lowerer: &Lowerer,
    env: &mut Env,
    body: &mut Body,
    block: usize,
    pair: &Pair,
) -> (r: Result<LoweredValue, LowerError>)
    requires
        sigs_ok(lowerer.ctx().sigs),
        env_ok(old(env)@, old(body)@),
        body_ok(old(body)@),
        (block as int) < old(body)@.blocks.len(),
    ensures
        value_outcome(
            spec_lower_if(lowerer.ctx(), old(env)@, old(body)@, block, pair_view(*pair)),
            r,
            old(env)@,
            old(body)@,
            final(env)@,
            final(body)@,
        ),
    decreases pair_view(*pair), 2int,
{
    let input = lowerer.input;
    proof {
        lemma_pair_view_children(*pair);
    }
    if pair.children.len() < 2 {
        return Err(LowerError::UnsupportedExpr(pair.rule, pair.text(input)));
    }
    let condition_value = match lower_expr(lowerer, env, body, block, &pair.children[0]) {
        Ok(v) => v,
        Err(x) => return Err(x),
    };
    let condition = match condition_value.as_single() {
        Some(x) => x,
        None => return Err(LowerError::UnsupportedExpr(pair.rule, pair.text(input))),
    };
    let ghost b1 = body@;
    let then_block = body.new_block();
    proof {
        lemma_env_ok_grow(env@, b1, body@);
        lemma_body_ok_grow(b1, body@);
        assert(flat(SLV::Single(condition)) =~= seq![condition]);
        assert(lv_ok(b1, lv_view(condition_value)));
        assert(lv_view(condition_value) == SLV::Single(condition));
        assert(flat(SLV::Single(condition))[0] == condition);
        assert((condition as int) < b1.types.len());
    }
    let then_values = match lower_branch(lowerer, env, body, then_block, &pair.children[1]) {
        Ok(v) => v,
        Err(x) => return Err(x),
    };
    let ghost b2 = body@;
    let result_types = body.types_of(&then_values);
    proof {
        lemma_body_ok_append(b2, then_block, SOp::Yield { values: then_values@ });
    }
    body.append(then_block, Op::Yield { values: then_values });
    let ghost b3 = body@;
    let else_block = body.new_block();
    proof {
        lemma_env_ok_grow(env@, b2, body@);
        lemma_body_ok_grow(b3, body@);
    }
    let else_values = if pair.children.len() >= 3 {
        match lower_branch(lowerer, env, body, else_block, &pair.children[2]) {
            Ok(v) => v,
            Err(x) => return Err(x),
        }
    } else {
        Vec::new()
    };
    let ghost b4 = body@;
    proof {
        assert(op_ok(b4, (else_block, SOp::Yield { values: else_values@ })));
        lemma_body_ok_append(b4, else_block, SOp::Yield { values: else_values@ });
    }
    body.append(else_block, Op::Yield { values: else_values });
    let ghost b5 = body@;
    let results = body.new_values(&result_types);
    proof {
        let b6 = body@;
        let op = SOp::If { condition, then_block, else_block, results: results@ };
        lemma_body_ok_grow(b5, b6);
        assert(op_ok(b6, (block, op)));
        lemma_body_ok_append(b6, block, op);
    }
    body.append(
        block,
        Op::If { condition, then_block, else_block, results: copy_values(&results) },
    );
    proof {
        lemma_env_ok_grow(env@, b4, body@);
        lemma_flat_if_value(results@);
    }
    Ok(if_result(&results))
}

/// The value of an `scf.if` with the results `results`.
fn if_result(results: &Vec<usize>) -> (v: LoweredValue)
    ensures
        lv_view(v) == if_value(results@),
{
    if results.len() == 0 {
        LoweredValue::unit()
    } else if results.len() == 1 {
        LoweredValue::single(results[0])
    } else {
        let mut vs: Vec<LoweredValue> = Vec::new();
        let mut i: usize = 0;
        while i < results.len()
            invariant
                i <= results@.len(),
                lvs_view(vs@) == results@.take(i as int).map_values(|x: usize| SLV::Single(x)),
            decreases results@.len() - i,
        {
            let ghost before = vs@;
            let s = LoweredValue::single(results[i]);
            let ghost gs = s;
            vs.push(s);
            proof {
                assert(lvs_view(vs@) =~= lvs_view(before).push(lv_view(gs)));
                assert(results@.take(i + 1).map_values(|x: usize| SLV::Single(x)) =~= results@.take(
                    i as int,
                ).map_values(|x: usize| SLV::Single(x)).push(SLV::Single(results@[i as int])));
            }
            i = i + 1;
        }
        proof {
            assert(results@.take(results@.len() as int) =~= results@);
        }
        LoweredValue::tuple(vs)
    }
}

} // verus!
