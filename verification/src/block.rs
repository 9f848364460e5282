//! Lowering of blocks and statements.
use vstd::prelude::*;
use vstd::string::StringExecFns;

use crate::cst_to_qauc;
use crate::cst_to_qduc;
use crate::env::Env;
use crate::error::{LowerError, SLowerError, err_view};
use crate::expr::lower_expr;
use crate::grammar::Rule;
use crate::ir::{Body, SOp, body_ok, ends_at, lemma_body_ok_append, lemma_body_ok_grow, op_ok, open_before, opens_at};
use crate::lowering::{
    block_outcome, env_ok, grows, lemma_env_lifetime_ok, lemma_env_ok_close, lemma_env_ok_define,
    lemma_env_ok_after_end, lemma_env_ok_grow, lemma_env_ok_open, lemma_items_err, lemma_lookup_ok, lv_ok, opt_lv_ok,
    opt_lv_view, spec_lifetime_var_name, spec_lower_block_body, spec_lower_items,
    spec_lower_stmt, spec_stmt_error_state, stmt_outcome,
};
use crate::program::Lowerer;
use crate::signature::sigs_ok;
use crate::tree::{Pair, lemma_pair_view_children, pair_view, text_of};
use crate::value::{LoweredValue, SLV, flat, lv_view};

verus! {

/// Walks a `block` node's statements and optional trailing expression,
/// appending operations to `block`; gives the value of the trailing
/// expression. Shared by function bodies, `if` branches and nested blocks.
#[verifier::loop_isolation(false)]
pub fn lower_block_body(
    lowerer: &Lowerer,
    env: &mut Env,
    body: &mut Body,
    block: usize,
    pair: &Pair,
) -> (r: Result<Option<LoweredValue>, LowerError>)
    requires
        sigs_ok(lowerer.ctx().sigs),
        env_ok(old(env)@, old(body)@),
        body_ok(old(body)@),
        (block as int) < old(body)@.blocks.len(),
    ensures
        block_outcome(
            spec_lower_block_body(lowerer.ctx(), old(env)@, old(body)@, block, pair_view(*pair)),
            r,
            old(env)@,
            old(body)@,
            final(env)@,
            final(body)@,
        ),
    decreases pair_view(*pair), 0int,
{
    proof {
        lemma_pair_view_children(*pair);
    }
    let ghost c = lowerer.ctx();
    let ghost e0 = env@;
    let ghost b0 = body@;
    let ghost cs = pair_view(*pair).children;
    let mut trailing: Option<LoweredValue> = None;
    let mut i: usize = 0;
    while i < pair.children.len()
        invariant
            i <= pair.children@.len(),
            spec_lower_items(c, e0, b0, block, cs, i as int) == Ok::<
                (Option<SLV>, crate::env::SEnv, crate::ir::SBody),
                SLowerError,
            >((opt_lv_view(trailing), env@, body@)),
            env_ok(env@, body@),
            opt_lv_ok(body@, opt_lv_view(trailing)),
            grows(b0, body@),
            env@.scopes.len() == e0.scopes.len(),
        decreases pair.children@.len() - i,
    {
        let child = &pair.children[i];
        let ghost b1 = body@;
        if child.rule == Rule::stmt {
            match lower_stmt(lowerer, env, body, block, child) {
                Ok(()) => {},
                Err(x) => {
                    proof {
                        lemma_items_err(c, e0, b0, block, cs, i + 1, cs.len() as int);
                    }
                    return Err(x);
                },
            }
        } else if child.rule == Rule::expr {
            match lower_expr(lowerer, env, body, block, child) {
                Ok(v) => {
                    trailing = Some(v);
                },
                Err(x) => {
                    proof {
                        lemma_items_err(c, e0, b0, block, cs, i + 1, cs.len() as int);
                    }
                    return Err(x);
                },
            }
        } else {
            proof {
                lemma_items_err(c, e0, b0, block, cs, i + 1, cs.len() as int);
            }
            return Err(LowerError::UnsupportedStmt(child.rule, child.text(lowerer.input)));
        }
        i = i + 1;
    }
    Ok(trailing)
}

/// The name of the lifetime variable of a `lifetime` node; `'0` and
/// `'static` are refused.
pub fn lifetime_var_name(lifetime_pair: &Pair, stmt_text: &String, input: &str) -> (r: Result<
    String,
    LowerError,
>)
    ensures
        match spec_lifetime_var_name(input@, pair_view(*lifetime_pair), stmt_text@) {
            Ok(name) => r matches Ok(n) && n@ == name,
            Err(x) => r matches Err(rx) && err_view(rx) == x,
        },
{
    proof {
        lemma_pair_view_children(*lifetime_pair);
    }
    if lifetime_pair.children.len() == 0 {
        return Err(LowerError::UnsupportedLifetime(lifetime_pair.rule, stmt_text.clone()));
    }
    let variant = &lifetime_pair.children[0];
    if variant.rule == Rule::lifetime_var {
        Ok(variant.text(input))
    } else {
        Err(LowerError::UnsupportedLifetime(variant.rule, stmt_text.clone()))
    }
}

/// `'name`.
fn quoted(name: &String) -> (r: String)
    ensures
        r@ == crate::lowering::quoted(name@),
{
    let mut r = String::from_str("'");
    r.append(name.as_str());
    r
}

/// Lowers a `stmt` node into `block`.
pub fn lower_stmt(
    lowerer: &Lowerer,
    env: &mut Env,
    body: &mut Body,
    block: usize,
    pair: &Pair,
) -> (r: Result<(), LowerError>)
    requires
        sigs_ok(lowerer.ctx().sigs),
        env_ok(old(env)@, old(body)@),
        body_ok(old(body)@),
        (block as int) < old(body)@.blocks.len(),
    ensures
        stmt_outcome(
            spec_lower_stmt(lowerer.ctx(), old(env)@, old(body)@, block, pair_view(*pair)),
            r,
            old(env)@,
            old(body)@,
            final(env)@,
            final(body)@,
        ),
        spec_lower_stmt(lowerer.ctx(), old(env)@, old(body)@, block, pair_view(*pair)) is Err
            ==> (spec_stmt_error_state(lowerer.ctx(), old(env)@, old(body)@, block, pair_view(*pair))
            matches Some((e2, b2)) ==> final(env)@ == e2 && final(body)@ == b2),
    decreases pair_view(*pair), 3int,
{
    let input = lowerer.input;
    let text = pair.text(input);
    proof {
        lemma_pair_view_children(*pair);
    }
    if pair.children.len() == 0 {
        return Err(LowerError::UnsupportedStmt(pair.rule, text));
    }
    let inner = &pair.children[0];
    proof {
        lemma_pair_view_children(*inner);
    }
    if inner.rule == Rule::let_stmt && inner.children.len() >= 3 {
        let name = inner.children[0].text(input);
        let value = match lower_expr(lowerer, env, body, block, &inner.children[2]) {
            Ok(v) => v,
            Err(x) => return Err(x),
        };
        proof {
            lemma_env_ok_define(env@, body@, name@, lv_view(value));
        }
        env.define(name, value);
        Ok(())
    } else if inner.rule == Rule::expr_stmt && inner.children.len() >= 1 {
        match lower_expr(lowerer, env, body, block, &inner.children[0]) {
            Ok(_) => Ok(()),
            Err(x) => Err(x),
        }
    } else if inner.rule == Rule::newlft_stmt && inner.children.len() >= 1 {
        let name = match lifetime_var_name(&inner.children[0], &text, input) {
            Ok(n) => n,
            Err(x) => return Err(x),
        };
        let ghost b0 = body@;
        let token = cst_to_qduc::newlft(body, block);
        let message = quoted(&name);
        proof {
            let b1 = crate::ir::with_value(b0, crate::ir::Ty::Lifetime);
            lemma_body_ok_grow(b0, b1);
            assert(op_ok(b1, (block, SOp::NewLft { result: token })));
            lemma_body_ok_append(b1, block, SOp::NewLft { result: token });
            lemma_env_ok_grow(env@, b0, body@);
            let ops = body@.ops;
            assert(opens_at(ops, b0.ops.len() as int, token));
            assert forall|j: int| 0 <= j < ops.len() implies !#[trigger] ends_at(ops, j, token) by {
                if j < b0.ops.len() {
                    assert(ops[j] == b0.ops[j]);
                    assert(op_ok(b0, b0.ops[j]));
                    if let SOp::End { lifetime } = b0.ops[j].1 {
                        assert(crate::ir::op_operands(b0.ops[j].1)[0] == lifetime);
                    }
                }
            }
            assert(open_before(ops, token, ops.len() as int));
            assert forall|k: int| 0 <= k < env@.lifetimes.len() implies (#[trigger] env@.lifetimes[k]).1
                != token by {
                assert((env@.lifetimes[k].1 as int) < b0.types.len());
            }
            lemma_env_ok_open(env@, body@, name@, token);
        }
        if !env.open_lifetime(name, token) {
            return Err(LowerError::LifetimeAlreadyOpen(message));
        }
        Ok(())
    } else if inner.rule == Rule::endlft_stmt && inner.children.len() >= 1 {
        let name = match lifetime_var_name(&inner.children[0], &text, input) {
            Ok(n) => n,
            Err(x) => return Err(x),
        };
        proof {
            lemma_env_ok_close(env@, body@, name@);
        }
        let token = match env.close_lifetime(&name) {
            Some(t) => t,
            None => return Err(LowerError::UnknownLifetime(quoted(&name))),
        };
        let ghost b0 = body@;
        proof {
            assert(op_ok(b0, (block, SOp::End { lifetime: token.raw })));
            crate::ir::lemma_open_before_push(
                b0.ops,
                (block, SOp::End { lifetime: token.raw }),
                token.raw,
                b0.ops.len() as int,
            );
            lemma_body_ok_append(b0, block, SOp::End { lifetime: token.raw });
            lemma_env_ok_after_end(env@, b0, block, token.raw);
        }
        cst_to_qduc::end(body, block, token.as_value());
        Ok(())
    } else if inner.rule == Rule::borrow_stmt && inner.children.len() >= 3 {
        let new_name = inner.children[0].text(input);
        let source_name = inner.children[2].text(input);
        let lifetime_name = match lifetime_var_name(&inner.children[1], &text, input) {
            Ok(n) => n,
            Err(x) => return Err(x),
        };
        proof {
            lemma_env_lifetime_ok(env@, body@, lifetime_name@);
            lemma_lookup_ok(env@, body@, source_name@);
        }
        let lifetime = match env.lifetime(&lifetime_name) {
            Some(t) => t,
            None => return Err(LowerError::UnknownLifetime(quoted(&lifetime_name))),
        };
        let value = match env.lookup(&source_name) {
            Some(v) => v,
            None => return Err(LowerError::UndefinedVariable(source_name)),
        };
        let x = match value.as_single() {
            Some(x) => x,
            None => return Err(LowerError::UnsupportedStmt(Rule::borrow_stmt, text)),
        };
        proof {
            assert(flat(SLV::Single(x)) =~= seq![x]);
            assert(lv_ok(body@, lv_view(value)));
            assert(flat(lv_view(value))[0] == x);
            assert((x as int) < body@.types.len());
        }
        let ghost b0 = body@;
        let result = cst_to_qauc::borrow(body, block, x, lifetime.as_value());
        proof {
            let b1 = crate::ir::with_value(b0, crate::ir::Ty::Ref(Box::new(b0.types[x as int])));
            let op = SOp::Borrow { source: x, lifetime: lifetime.raw, result };
            lemma_body_ok_grow(b0, b1);
            assert(op_ok(b1, (block, op)));
            crate::ir::lemma_open_before_push(b1.ops, (block, op), lifetime.raw, b1.ops.len() as int);
            lemma_body_ok_append(b1, block, op);
            lemma_env_ok_grow(env@, b0, body@);
            assert(flat(SLV::Single(result)) =~= seq![result]);
            lemma_env_ok_define(env@, body@, new_name@, SLV::Single(result));
        }
        env.define(new_name, LoweredValue::single(result));
        Ok(())
    } else {
        Err(LowerError::UnsupportedStmt(inner.rule, text))
    }
}

} // verus!
