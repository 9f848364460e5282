//! Properties that hold across the operations of the library.
use vstd::prelude::*;

use crate::compile::{SFunctionResult, error_index, function_names, spec_function_results};
use crate::env::{
    SEnv, env_close_lifetime, env_define, env_lifetime, env_lookup, env_new, env_open_lifetime,
    env_pop_scope, env_push_scope, lifetime_index, names_distinct, scope_lookup, scopes_lookup,
};
use crate::error::SLowerError;
use crate::function::{SFunction, spec_collect_signature, spec_lower_function};
use crate::grammar::{Rule, spec_function, spec_functions, spec_program, within, ws};
use crate::ir::{
    SBody, SOp, ends_at, lifetimes_ok, op_lifetime_ok, open_before, opens_at, with_block, with_op,
};
use crate::lowering::{
    LCtx, env_ok, quoted, spec_lower_args, spec_lower_block_body, spec_lower_branch, spec_lower_call,
    spec_lower_expr, spec_lower_if, spec_lower_items, spec_lower_stmt,
};
use crate::program::{function_name_of, spec_collect_all, spec_lower_all, spec_lower_program};
use crate::signature::{SSig, sig_lookup};
use crate::tree::{SPair, leaf, text_of};
use crate::value::{SLV, unit_lv};

verus! {

/// After `name` is defined as `v`, looking `name` up gives `v`.
pub proof fn law_lookup_after_define(e: SEnv, name: Seq<char>, v: SLV)
    requires
        e.scopes.len() > 0,
    ensures
        env_lookup(env_define(e, name, v), name) == Some(v),
{
    let e2 = env_define(e, name, v);
    assert(e2.scopes.last() == e.scopes.last().push((name, v)));
}

/// Defining `name` does not change what any other name stands for.
pub proof fn law_define_keeps_other_names(e: SEnv, name: Seq<char>, other: Seq<char>, v: SLV)
    requires
        e.scopes.len() > 0,
        other != name,
    ensures
        env_lookup(env_define(e, name, v), other) == env_lookup(e, other),
{
    let e2 = env_define(e, name, v);
    let last = e.scopes.last();
    assert(last.push((name, v)).drop_last() =~= last);
    assert(scope_lookup(last.push((name, v)), other) == scope_lookup(last, other));
    assert(e2.scopes.drop_last() =~= e.scopes.drop_last());
}

/// What is defined in a scope is gone once the scope is popped: opening a
/// scope, defining a name in it and closing it gives back the environment.
pub proof fn law_scope_discards_definitions(e: SEnv, name: Seq<char>, v: SLV)
    ensures
        env_pop_scope(env_define(env_push_scope(e), name, v)) == e,
{
    let e2 = env_pop_scope(env_define(env_push_scope(e), name, v));
    assert(e2.scopes =~= e.scopes);
}

/// A definition in an inner scope hides an outer one of the same name.
pub proof fn law_inner_definition_shadows(e: SEnv, name: Seq<char>, v: SLV)
    ensures
        env_lookup(env_define(env_push_scope(e), name, v), name) == Some(v),
{
    law_lookup_after_define(env_push_scope(e), name, v);
}

/// Opening a lifetime that is not open succeeds, and closing it then gives
/// back its token and the environment as it was.
pub proof fn law_close_undoes_open(e: SEnv, name: Seq<char>, token: usize)
    requires
        lifetime_index(e.lifetimes, name) < 0,
    ensures
        env_open_lifetime(e, name, token).0,
        env_close_lifetime(env_open_lifetime(e, name, token).1, name) == (Some(token), e),
{
    let e1 = env_open_lifetime(e, name, token).1;
    assert(e1.lifetimes.drop_last() =~= e.lifetimes);
    assert(lifetime_index(e1.lifetimes, name) == e.lifetimes.len());
    assert(e1.lifetimes.remove(e.lifetimes.len() as int) =~= e.lifetimes);
}

/// A lifetime cannot be opened twice: while it is open, opening it again is
/// refused and changes nothing.
pub proof fn law_open_refused_while_open(e: SEnv, name: Seq<char>, t1: usize, t2: usize)
    requires
        lifetime_index(e.lifetimes, name) < 0,
    ensures
        env_open_lifetime(env_open_lifetime(e, name, t1).1, name, t2) == (
            false,
            env_open_lifetime(e, name, t1).1,
        ),
{
    let e1 = env_open_lifetime(e, name, t1).1;
    assert(lifetime_index(e1.lifetimes, name) == e.lifetimes.len());
}

/// Closing a lifetime that is not open gives nothing and changes nothing.
pub proof fn law_close_unopened(e: SEnv, name: Seq<char>)
    requires
        lifetime_index(e.lifetimes, name) < 0,
    ensures
        env_close_lifetime(e, name) == (None::<usize>, e),
{
}

/// The results of the functions have one entry per name, in order; an entry
/// is a failure exactly when an error is recorded for its name, and then
/// holds the last error recorded for it.
pub proof fn law_one_result_per_function(
    names: Seq<Seq<char>>,
    errs: Seq<(Seq<char>, Seq<char>)>,
    ops: Seq<Seq<char>>,
    k: int,
)
    requires
        0 <= k <= names.len(),
    ensures
        spec_function_results(names, errs, ops, k).0.len() == k,
        forall|i: int|
            0 <= i < k ==> {
                let r = #[trigger] spec_function_results(names, errs, ops, k).0[i];
                &&& r.name == names[i]
                &&& r.ok == (error_index(errs, names[i]) < 0)
                &&& !r.ok ==> r.content == errs[error_index(errs, names[i])].1
            },
    decreases k,
{
    if k > 0 {
        law_one_result_per_function(names, errs, ops, k - 1);
        let prev = spec_function_results(names, errs, ops, k - 1).0;
        let cur = spec_function_results(names, errs, ops, k).0;
        assert forall|i: int| 0 <= i < k - 1 implies cur[i] == prev[i] by {}
    }
}

/// Every node among the functions of a text is a function node.
pub proof fn lemma_functions_are_functions(s: Seq<char>, p: int)
    ensures
        forall|i: int|
            0 <= i < spec_functions(s, p).1.len() ==> (#[trigger] spec_functions(s, p).1[i]).rule
                == Rule::function,
    decreases s.len() - p,
{
    match within(s, p, spec_function(s, p)) {
        None => {},
        Some((e1, f)) => {
            if e1 > p {
                lemma_functions_are_functions(s, ws(s, e1));
                let rest = spec_functions(s, ws(s, e1)).1;
                let all = spec_functions(s, p).1;
                assert(all == seq![f] + rest);
                assert forall|i: int| 0 <= i < all.len() implies (#[trigger] all[i]).rule
                    == Rule::function by {
                    if i > 0 {
                        assert(all[i] == rest[i - 1]);
                    }
                }
            }
        },
    }
}

/// A parsed program is a list of function nodes followed by the end marker,
/// an empty node at the end of the text.
pub proof fn law_program_is_functions_then_end(s: Seq<char>)
    ensures
        spec_program(s) matches Ok(ps) ==> {
            &&& ps.len() >= 1
            &&& ps.last() == leaf(Rule::EOI, s.len() as int, s.len() as int)
            &&& forall|i: int| 0 <= i < ps.len() - 1 ==> (#[trigger] ps[i]).rule == Rule::function
        },
{
    let q0 = ws(s, 0);
    lemma_functions_are_functions(s, q0);
    if let Ok(ps) = spec_program(s) {
        let fns = spec_functions(s, q0).1;
        assert(ps == fns.push(leaf(Rule::EOI, s.len() as int, s.len() as int)));
        assert forall|i: int| 0 <= i < ps.len() - 1 implies (#[trigger] ps[i]).rule
            == Rule::function by {
            assert(ps[i] == fns[i]);
        }
    }
}


// ---------------------------------------------------------------- lowering a program

/// No two function nodes among `ps` have the same name.
pub open spec fn distinct_function_names(s: Seq<char>, ps: Seq<SPair>) -> bool {
    forall|i: int, j: int|
        0 <= i < ps.len() && 0 <= j < ps.len() && i != j && ps[i].rule == Rule::function
            && ps[j].rule == Rule::function ==> #[trigger] function_name_of(s, ps[i])
            != #[trigger] function_name_of(s, ps[j])
}

/// Some error is recorded under `name`.
pub open spec fn has_error(errs: Seq<(Seq<char>, SLowerError)>, name: Seq<char>) -> bool {
    exists|i: int| 0 <= i < errs.len() && (#[trigger] errs[i]).0 == name
}

/// The names among `names` under which no error is recorded, in order.
pub open spec fn names_without_error(
    names: Seq<Seq<char>>,
    errs: Seq<(Seq<char>, SLowerError)>,
) -> Seq<Seq<char>>
    decreases names.len(),
{
    if names.len() == 0 {
        Seq::empty()
    } else {
        let rest = names_without_error(names.drop_last(), errs);
        if has_error(errs, names.last()) {
            rest
        } else {
            rest.push(names.last())
        }
    }
}

/// The signature that collecting a function node gives, if any.
pub open spec fn collected(s: Seq<char>, f: SPair) -> Option<SSig> {
    match spec_collect_signature(s, f) {
        Ok((_, sig)) => Some(sig),
        Err(_) => None,
    }
}

/// A function node whose signature collects and whose body lowers with it.
pub open spec fn node_lowers(c: LCtx, f: SPair) -> bool {
    &&& f.rule == Rule::function
    &&& collected(c.s, f) matches Some(sig) && spec_lower_function(c, sig, f) is Ok
}

/// The names of the nodes among `ps[0..k]` that lower, in order.
pub open spec fn lowered_names(c: LCtx, ps: Seq<SPair>, k: int) -> Seq<Seq<char>>
    decreases k,
{
    if k <= 0 || k > ps.len() {
        Seq::empty()
    } else {
        let rest = lowered_names(c, ps, k - 1);
        if node_lowers(c, ps[k - 1]) {
            rest.push(function_name_of(c.s, ps[k - 1]))
        } else {
            rest
        }
    }
}

proof fn lemma_lookup_push(sigs: Seq<(Seq<char>, SSig)>, x: (Seq<char>, SSig), name: Seq<char>)
    ensures
        sig_lookup(sigs.push(x), name) == (if x.0 == name {
            Some(x.1)
        } else {
            sig_lookup(sigs, name)
        }),
{
    assert(sigs.push(x).drop_last() =~= sigs);
}

proof fn lemma_lookup_named(sigs: Seq<(Seq<char>, SSig)>, name: Seq<char>)
    ensures
        sig_lookup(sigs, name) is Some ==> exists|i: int| 0 <= i < sigs.len() && (#[trigger] sigs[i]).0 == name,
    decreases sigs.len(),
{
    if sigs.len() > 0 {
        if sigs.last().0 == name {
            assert(sigs[sigs.len() - 1].0 == name);
        } else {
            lemma_lookup_named(sigs.drop_last(), name);
            if sig_lookup(sigs, name) is Some {
                let i = choose|i: int| 0 <= i < sigs.drop_last().len() && (#[trigger] sigs.drop_last()[i]).0 == name;
                assert(sigs[i] == sigs.drop_last()[i]);
            }
        }
    }
}

/// After the first pass over `ps[0..k]`, each function node's name finds the
/// signature collected for it, and the table holds only names of those nodes.
proof fn lemma_collected_lookup(s: Seq<char>, ps: Seq<SPair>, k: int)
    requires
        0 <= k <= ps.len(),
        distinct_function_names(s, ps),
    ensures
        forall|j: int|
            0 <= j < k && ps[j].rule == Rule::function ==> sig_lookup(
                spec_collect_all(s, ps, k).0,
                #[trigger] function_name_of(s, ps[j]),
            ) == collected(s, ps[j]),
        forall|i: int|
            0 <= i < spec_collect_all(s, ps, k).0.len() ==> exists|j: int|
                0 <= j < k && ps[j].rule == Rule::function && #[trigger] function_name_of(s, ps[j])
                    == (#[trigger] spec_collect_all(s, ps, k).0[i]).0,
    decreases k,
{
    if k > 0 {
        lemma_collected_lookup(s, ps, k - 1);
        let sigs0 = spec_collect_all(s, ps, k - 1).0;
        let sigs = spec_collect_all(s, ps, k).0;
        let f = ps[k - 1];
        let nk = function_name_of(s, f);
        if f.rule == Rule::function {
            match spec_collect_signature(s, f) {
                Ok((nm, sig)) => {
                    assert(nm == nk);
                    assert(sigs == sigs0.push((nm, sig)));
                    assert forall|j: int|
                        0 <= j < k && ps[j].rule == Rule::function implies sig_lookup(
                        sigs,
                        #[trigger] function_name_of(s, ps[j]),
                    ) == collected(s, ps[j]) by {
                        lemma_lookup_push(sigs0, (nm, sig), function_name_of(s, ps[j]));
                    }
                    assert forall|i: int| 0 <= i < sigs.len() implies exists|j: int|
                        0 <= j < k && ps[j].rule == Rule::function && #[trigger] function_name_of(
                            s,
                            ps[j],
                        ) == (#[trigger] sigs[i]).0 by {
                        if i == sigs0.len() {
                            assert(function_name_of(s, ps[k - 1]) == sigs[i].0);
                        } else {
                            assert(sigs[i] == sigs0[i]);
                        }
                    }
                },
                Err(_) => {
                    lemma_lookup_named(sigs0, nk);
                    if sig_lookup(sigs0, nk) is Some {
                        let i = choose|i: int| 0 <= i < sigs0.len() && (#[trigger] sigs0[i]).0 == nk;
                        let j = choose|j: int|
                            0 <= j < k - 1 && ps[j].rule == Rule::function && #[trigger] function_name_of(
                                s,
                                ps[j],
                            ) == (#[trigger] sigs0[i]).0;
                        assert(function_name_of(s, ps[j]) != function_name_of(s, ps[k - 1]));
                    }
                },
            }
        }
    }
}


/// An error of the first pass over `ps[0..k]` is recorded under a name
/// exactly when some function node there of that name fails to collect.
proof fn lemma_collect_errors(s: Seq<char>, ps: Seq<SPair>, k: int, name: Seq<char>)
    requires
        0 <= k <= ps.len(),
    ensures
        has_error(spec_collect_all(s, ps, k).1, name) <==> exists|j: int|
            0 <= j < k && ps[j].rule == Rule::function && collected(s, ps[j]) is None
                && #[trigger] function_name_of(s, ps[j]) == name,
    decreases k,
{
    if k > 0 {
        lemma_collect_errors(s, ps, k - 1, name);
        let errs0 = spec_collect_all(s, ps, k - 1).1;
        let errs = spec_collect_all(s, ps, k).1;
        let f = ps[k - 1];
        if f.rule == Rule::function && collected(s, f) is None {
            assert(errs == errs0.push((function_name_of(s, f), spec_collect_signature(s, f)->Err_0)));
            if has_error(errs, name) {
                let i = choose|i: int| 0 <= i < errs.len() && (#[trigger] errs[i]).0 == name;
                if i < errs0.len() {
                    assert(errs0[i] == errs[i]);
                } else {
                    assert(function_name_of(s, ps[k - 1]) == name);
                }
            }
            if exists|j: int|
                0 <= j < k && ps[j].rule == Rule::function && collected(s, ps[j]) is None
                    && #[trigger] function_name_of(s, ps[j]) == name {
                let j = choose|j: int|
                    0 <= j < k && ps[j].rule == Rule::function && collected(s, ps[j]) is None
                        && #[trigger] function_name_of(s, ps[j]) == name;
                if j == k - 1 {
                    assert(errs[errs0.len() as int].0 == name);
                } else {
                    let i = choose|i: int| 0 <= i < errs0.len() && (#[trigger] errs0[i]).0 == name;
                    assert(errs[i] == errs0[i]);
                }
            }
        } else {
            assert(errs == errs0);
            if exists|j: int|
                0 <= j < k && ps[j].rule == Rule::function && collected(s, ps[j]) is None
                    && #[trigger] function_name_of(s, ps[j]) == name {
                let j = choose|j: int|
                    0 <= j < k && ps[j].rule == Rule::function && collected(s, ps[j]) is None
                        && #[trigger] function_name_of(s, ps[j]) == name;
                assert(j < k - 1);
            }
        }
    }
}

/// The second pass over `ps[0..k]`, when each function node's name finds the
/// signature collected for it: the lowered functions are those of the nodes
/// that lower, in order, and an error joins under a name exactly when a node
/// of that name collects but does not lower.
proof fn lemma_lower_all(
    c: LCtx,
    ps: Seq<SPair>,
    k: int,
    errs0: Seq<(Seq<char>, SLowerError)>,
    name: Seq<char>,
)
    requires
        0 <= k <= ps.len(),
        forall|j: int|
            0 <= j < ps.len() && ps[j].rule == Rule::function ==> sig_lookup(
                c.sigs,
                #[trigger] function_name_of(c.s, ps[j]),
            ) == collected(c.s, ps[j]),
    ensures
        spec_lower_all(c, ps, k, errs0).0.map_values(|f: SFunction| f.name) == lowered_names(c, ps, k),
        has_error(spec_lower_all(c, ps, k, errs0).1, name) <==> (has_error(errs0, name) || exists|j: int|
            0 <= j < k && ps[j].rule == Rule::function && collected(c.s, ps[j]) is Some
                && !node_lowers(c, ps[j]) && #[trigger] function_name_of(c.s, ps[j]) == name),
    decreases k,
{
    if k > 0 {
        lemma_lower_all(c, ps, k - 1, errs0, name);
        let (fs0, e0) = spec_lower_all(c, ps, k - 1, errs0);
        let (fs, e) = spec_lower_all(c, ps, k, errs0);
        let f = ps[k - 1];
        let nk = function_name_of(c.s, f);
        let ex_prev = exists|j: int|
            0 <= j < k - 1 && ps[j].rule == Rule::function && collected(c.s, ps[j]) is Some
                && !node_lowers(c, ps[j]) && #[trigger] function_name_of(c.s, ps[j]) == name;
        let ex_cur = exists|j: int|
            0 <= j < k && ps[j].rule == Rule::function && collected(c.s, ps[j]) is Some
                && !node_lowers(c, ps[j]) && #[trigger] function_name_of(c.s, ps[j]) == name;
        let fails_here = f.rule == Rule::function && collected(c.s, f) is Some && !node_lowers(c, f);
        assert(ex_cur <==> ex_prev || (fails_here && nk == name)) by {
            if ex_cur {
                let j = choose|j: int|
                    0 <= j < k && ps[j].rule == Rule::function && collected(c.s, ps[j]) is Some
                        && !node_lowers(c, ps[j]) && #[trigger] function_name_of(c.s, ps[j]) == name;
                if j < k - 1 {
                    assert(ex_prev);
                }
            }
            if ex_prev {
                let j = choose|j: int|
                    0 <= j < k - 1 && ps[j].rule == Rule::function && collected(c.s, ps[j]) is Some
                        && !node_lowers(c, ps[j]) && #[trigger] function_name_of(c.s, ps[j]) == name;
                assert(0 <= j < k);
            }
            if fails_here && nk == name {
                assert(function_name_of(c.s, ps[k - 1]) == name);
            }
        }
        if f.rule == Rule::function {
            match sig_lookup(c.sigs, nk) {
                None => {
                    assert(collected(c.s, f) is None);
                },
                Some(sig) => {
                    assert(collected(c.s, f) == Some(sig));
                    match spec_lower_function(c, sig, f) {
                        Ok(lf) => {
                            assert(node_lowers(c, f));
                            assert(lf.name == nk);
                            assert(fs == fs0.push(lf));
                            assert(fs.map_values(|x: SFunction| x.name) =~= fs0.map_values(
                                |x: SFunction| x.name,
                            ).push(nk));
                        },
                        Err(x) => {
                            assert(!node_lowers(c, f));
                            assert(e == e0.push((nk, x)));
                            if has_error(e, name) {
                                let i = choose|i: int| 0 <= i < e.len() && (#[trigger] e[i]).0 == name;
                                if i < e0.len() {
                                    assert(e0[i] == e[i]);
                                }
                            }
                            if has_error(e0, name) {
                                let i = choose|i: int| 0 <= i < e0.len() && (#[trigger] e0[i]).0 == name;
                                assert(e[i] == e0[i]);
                            }
                            if nk == name {
                                assert(e[e0.len() as int].0 == name);
                            }
                        },
                    }
                },
            }
        }
    }
}


/// The names of the lowered nodes among `ps[0..k]` are the names of the
/// function nodes there without an error, when an error is recorded under a
/// function node's name exactly when that node does not lower.
proof fn lemma_lowered_names_without_error(
    c: LCtx,
    ps: Seq<SPair>,
    k: int,
    errs: Seq<(Seq<char>, SLowerError)>,
)
    requires
        0 <= k <= ps.len(),
        forall|j: int|
            0 <= j < ps.len() && ps[j].rule == Rule::function ==> (has_error(
                errs,
                #[trigger] function_name_of(c.s, ps[j]),
            ) <==> !node_lowers(c, ps[j])),
    ensures
        lowered_names(c, ps, k) == names_without_error(function_names(c.s, ps.take(k)), errs),
    decreases k,
{
    if k > 0 {
        lemma_lowered_names_without_error(c, ps, k - 1, errs);
        assert(ps.take(k).drop_last() =~= ps.take(k - 1));
        assert(ps.take(k).last() == ps[k - 1]);
        let f = ps[k - 1];
        if f.rule == Rule::function {
            assert(has_error(errs, function_name_of(c.s, ps[k - 1])) <==> !node_lowers(c, ps[k - 1]));
            let names = function_names(c.s, ps.take(k));
            assert(names.drop_last() == function_names(c.s, ps.take(k - 1)));
        }
    } else {
        assert(ps.take(0) =~= Seq::<SPair>::empty());
    }
}

/// When no two functions of a program share a name, lowering it gives one
/// function per name under which no error is recorded, in source order: the
/// playground pairs each such name with the next lowered function.
pub proof fn law_lowered_functions_follow_names(s: Seq<char>, ps: Seq<SPair>)
    requires
        distinct_function_names(s, ps),
    ensures
        spec_lower_program(s, ps).functions.map_values(|f: SFunction| f.name) == names_without_error(
            function_names(s, ps),
            spec_lower_program(s, ps).errors,
        ),
{
    let n = ps.len() as int;
    let (sigs, errs1) = spec_collect_all(s, ps, n);
    let c = LCtx { s, sigs };
    let p = spec_lower_program(s, ps);
    lemma_collected_lookup(s, ps, n);
    assert forall|j: int|
        0 <= j < ps.len() && ps[j].rule == Rule::function implies (has_error(
        p.errors,
        #[trigger] function_name_of(c.s, ps[j]),
    ) <==> !node_lowers(c, ps[j])) by {
        let name = function_name_of(s, ps[j]);
        lemma_lower_all(c, ps, n, errs1, name);
        lemma_collect_errors(s, ps, n, name);
        if has_error(errs1, name) {
            let j2 = choose|j2: int|
                0 <= j2 < n && ps[j2].rule == Rule::function && collected(s, ps[j2]) is None
                    && #[trigger] function_name_of(s, ps[j2]) == name;
            assert(j2 == j);
        }
        if exists|j2: int|
            0 <= j2 < n && ps[j2].rule == Rule::function && collected(c.s, ps[j2]) is Some
                && !node_lowers(c, ps[j2]) && #[trigger] function_name_of(c.s, ps[j2]) == name {
            let j2 = choose|j2: int|
                0 <= j2 < n && ps[j2].rule == Rule::function && collected(c.s, ps[j2]) is Some
                    && !node_lowers(c, ps[j2]) && #[trigger] function_name_of(c.s, ps[j2]) == name;
            assert(j2 == j);
        }
        if !node_lowers(c, ps[j]) {
            if collected(s, ps[j]) is None {
                assert(has_error(errs1, name));
            } else {
                assert(0 <= j < n && ps[j].rule == Rule::function && collected(c.s, ps[j]) is Some
                    && !node_lowers(c, ps[j]) && function_name_of(c.s, ps[j]) == name);
            }
        }
    }
    lemma_lower_all(c, ps, n, errs1, Seq::empty());
    lemma_lowered_names_without_error(c, ps, n, p.errors);
    assert(ps.take(n) =~= ps);
}


/// An error position is found for a name exactly when an error is recorded
/// under it, in a list of messages with the names of the errors.
proof fn lemma_error_index_has_error(
    msgs: Seq<(Seq<char>, Seq<char>)>,
    errs: Seq<(Seq<char>, SLowerError)>,
    name: Seq<char>,
)
    requires
        msgs.len() == errs.len(),
        forall|i: int| 0 <= i < msgs.len() ==> (#[trigger] msgs[i]).0 == errs[i].0,
    ensures
        error_index(msgs, name) >= 0 <==> has_error(errs, name),
    decreases msgs.len(),
{
    if msgs.len() > 0 {
        let m0 = msgs.drop_last();
        let e0 = errs.drop_last();
        assert forall|i: int| 0 <= i < m0.len() implies (#[trigger] m0[i]).0 == e0[i].0 by {
            assert(msgs[i].0 == errs[i].0);
        }
        lemma_error_index_has_error(m0, e0, name);
        crate::compile::lemma_error_index_bounds(m0, name);
        assert(msgs[msgs.len() - 1].0 == errs[errs.len() - 1].0);
        if has_error(errs, name) {
            let i = choose|i: int| 0 <= i < errs.len() && (#[trigger] errs[i]).0 == name;
            if i < e0.len() {
                assert(e0[i] == errs[i]);
            }
        }
        if has_error(e0, name) {
            let i = choose|i: int| 0 <= i < e0.len() && (#[trigger] e0[i]).0 == name;
            assert(errs[i] == e0[i]);
        }
        if msgs.last().0 == name {
            assert(errs[errs.len() - 1].0 == name);
        }
    }
}

/// Pairing names with results takes one lowered function's text per name
/// under which no error is recorded, when the messages carry the names of
/// the errors: as many texts as [`law_lowered_functions_follow_names`] says
/// lowering gives.
pub proof fn law_results_take_one_text_per_lowered_name(
    names: Seq<Seq<char>>,
    errs: Seq<(Seq<char>, SLowerError)>,
    msgs: Seq<(Seq<char>, Seq<char>)>,
    ops: Seq<Seq<char>>,
    k: int,
)
    requires
        0 <= k <= names.len(),
        msgs.len() == errs.len(),
        forall|i: int| 0 <= i < msgs.len() ==> (#[trigger] msgs[i]).0 == errs[i].0,
    ensures
        spec_function_results(names, msgs, ops, k).1 == names_without_error(names.take(k), errs).len(),
    decreases k,
{
    if k > 0 {
        law_results_take_one_text_per_lowered_name(names, errs, msgs, ops, k - 1);
        lemma_error_index_has_error(msgs, errs, names[k - 1]);
        assert(names.take(k).drop_last() =~= names.take(k - 1));
        assert(names.take(k).last() == names[k - 1]);
    } else {
        assert(names.take(0) =~= Seq::<Seq<char>>::empty());
    }
}


/// In a body whose lifetimes are in order (as every lowered function's are),
/// each `qduc.end` ends a token that a `qduc.newlft` before it gave, and no
/// token is ended twice.
pub proof fn law_each_lifetime_ends_once_after_it_opens(ops: Seq<(usize, SOp)>, i: int, t: usize)
    requires
        lifetimes_ok(ops),
        ends_at(ops, i, t),
    ensures
        exists|j: int| 0 <= j < i && #[trigger] opens_at(ops, j, t),
        forall|j: int| 0 <= j < ops.len() && j != i ==> !#[trigger] ends_at(ops, j, t),
{
    assert(op_lifetime_ok(ops, i));
    assert forall|j: int| 0 <= j < ops.len() && j != i implies !#[trigger] ends_at(ops, j, t) by {
        if j > i && ends_at(ops, j, t) {
            assert(op_lifetime_ok(ops, j));
            assert(!ends_at(ops, i, t));
        }
    }
}

/// In a body whose lifetimes are in order, each `qauc.borrow` is for a
/// lifetime that a `qduc.newlft` before it opened and that no `qduc.end`
/// before it closed.
pub proof fn law_borrows_use_open_lifetimes(ops: Seq<(usize, SOp)>, i: int)
    requires
        lifetimes_ok(ops),
        0 <= i < ops.len(),
        ops[i].1 is Borrow,
    ensures
        open_before(ops, ops[i].1->Borrow_lifetime, i),
{
    assert(op_lifetime_ok(ops, i));
}


// ---------------------------------------------------------------- the environment over many calls

/// One call on an environment.
pub enum EnvCall {
    Push,
    Pop,
    Define(Seq<char>, SLV),
    Open(Seq<char>, usize),
    Close(Seq<char>),
}

/// The environment after one call.
pub open spec fn env_apply(e: SEnv, c: EnvCall) -> SEnv {
    match c {
        EnvCall::Push => env_push_scope(e),
        EnvCall::Pop => env_pop_scope(e),
        EnvCall::Define(n, v) => env_define(e, n, v),
        EnvCall::Open(n, t) => env_open_lifetime(e, n, t).1,
        EnvCall::Close(n) => env_close_lifetime(e, n).1,
    }
}

/// The environment after the calls `cs`, in order.
pub open spec fn env_run(e: SEnv, cs: Seq<EnvCall>) -> SEnv
    decreases cs.len(),
{
    if cs.len() == 0 {
        e
    } else {
        env_apply(env_run(e, cs.drop_last()), cs.last())
    }
}

/// How many more scopes the calls `cs` push than they pop.
pub open spec fn depth(cs: Seq<EnvCall>) -> int
    decreases cs.len(),
{
    if cs.len() == 0 {
        0
    } else {
        depth(cs.drop_last()) + match cs.last() {
            EnvCall::Push => 1int,
            EnvCall::Pop => -1int,
            _ => 0int,
        }
    }
}

/// No first part of the calls `cs` pops more scopes than it pushes.
pub open spec fn never_below(cs: Seq<EnvCall>) -> bool {
    forall|k: int| 0 <= k <= cs.len() ==> depth(#[trigger] cs.take(k)) >= 0
}

proof fn lemma_never_below_prefix(cs: Seq<EnvCall>)
    requires
        cs.len() > 0,
        never_below(cs),
    ensures
        never_below(cs.drop_last()),
        depth(cs) >= 0,
{
    let d = cs.drop_last();
    assert forall|k: int| 0 <= k <= d.len() implies depth(#[trigger] d.take(k)) >= 0 by {
        assert(d.take(k) =~= cs.take(k));
    }
    assert(cs.take(cs.len() as int) =~= cs);
}

/// Calls that never pop more scopes than they have pushed change the number
/// of scopes by exactly what they push less what they pop, and leave every
/// scope but the innermost one that was there untouched.
proof fn lemma_run_scopes(e: SEnv, cs: Seq<EnvCall>)
    requires
        never_below(cs),
        e.scopes.len() >= 1,
    ensures
        env_run(e, cs).scopes.len() == e.scopes.len() + depth(cs),
        env_run(e, cs).scopes.take(e.scopes.len() - 1) == e.scopes.take(e.scopes.len() - 1),
    decreases cs.len(),
{
    if cs.len() > 0 {
        lemma_never_below_prefix(cs);
        let d = cs.drop_last();
        lemma_run_scopes(e, d);
        lemma_never_below_depth(d);
        let e0 = env_run(e, d);
        let m = e.scopes.len() - 1;
        match cs.last() {
            EnvCall::Push => {
                assert(env_run(e, cs).scopes.take(m) =~= e0.scopes.take(m));
            },
            EnvCall::Pop => {
                assert(e0.scopes.len() >= m + 2);
                assert(env_run(e, cs).scopes.take(m) =~= e0.scopes.take(m));
            },
            EnvCall::Define(nm, v) => {
                assert(env_run(e, cs).scopes.take(m) =~= e0.scopes.take(m));
            },
            _ => {},
        }
    }
}

/// From a fresh environment, after any calls that never pop more scopes than
/// they have pushed, there is still a scope: defining a name there succeeds,
/// and looking it up gives what was defined.
pub proof fn law_define_after_balanced_calls(cs: Seq<EnvCall>, name: Seq<char>, v: SLV)
    requires
        never_below(cs),
    ensures
        env_run(env_new(), cs).scopes.len() >= 1,
        env_lookup(env_define(env_run(env_new(), cs), name, v), name) == Some(v),
{
    lemma_never_below_depth(cs);
    assert(env_new().scopes.len() == 1);
    lemma_run_scopes(env_new(), cs);
    law_lookup_after_define(env_run(env_new(), cs), name, v);
}

proof fn lemma_never_below_depth(cs: Seq<EnvCall>)
    requires
        never_below(cs),
    ensures
        depth(cs) >= 0,
{
    assert(cs.take(cs.len() as int) =~= cs);
}

/// Opening a scope, making any calls that end with as many scopes as they
/// began with (and never fewer), then closing the scope, gives back the
/// scopes as they were, so every name looks up as before; the open lifetimes
/// are left as the calls made them.
pub proof fn law_pop_restores_scopes(e: SEnv, cs: Seq<EnvCall>, name: Seq<char>)
    requires
        never_below(cs),
        depth(cs) == 0,
    ensures
        env_pop_scope(env_run(env_push_scope(e), cs)).scopes == e.scopes,
        env_pop_scope(env_run(env_push_scope(e), cs)).lifetimes == env_run(env_push_scope(e), cs).lifetimes,
        env_lookup(env_pop_scope(env_run(env_push_scope(e), cs)), name) == env_lookup(e, name),
{
    let e1 = env_push_scope(e);
    lemma_run_scopes(e1, cs);
    let e2 = env_run(e1, cs);
    let n = e.scopes.len() as int;
    assert(e2.scopes.len() == n + 1);
    assert(e2.scopes.take(n) == e1.scopes.take(n));
    assert(e1.scopes.take(n) =~= e.scopes);
    assert forall|i: int| 0 <= i < n implies e2.scopes[i] == e.scopes[i] by {
        assert(e2.scopes.take(n)[i] == e2.scopes[i]);
        assert(e.scopes[i] == e1.scopes.take(n)[i]);
    }
    assert(env_pop_scope(e2).scopes =~= e.scopes);
}

/// Every call keeps the names of the open lifetimes distinct.
pub proof fn law_calls_keep_lifetime_names_distinct(e: SEnv, cs: Seq<EnvCall>)
    requires
        names_distinct(e.lifetimes),
    ensures
        names_distinct(env_run(e, cs).lifetimes),
    decreases cs.len(),
{
    if cs.len() > 0 {
        law_calls_keep_lifetime_names_distinct(e, cs.drop_last());
        let e0 = env_run(e, cs.drop_last());
        let l0 = e0.lifetimes;
        match cs.last() {
            EnvCall::Open(nm, t) => {
                if lifetime_index(l0, nm) < 0 {
                    lemma_open_keeps_distinct(l0, nm, t);
                }
            },
            EnvCall::Close(nm) => {
                crate::env::lemma_lifetime_index_bounds(l0, nm);
                let i = lifetime_index(l0, nm);
                if i >= 0 {
                    let l1 = l0.remove(i);
                    assert forall|k1: int, k2: int|
                        0 <= k1 < l1.len() && 0 <= k2 < l1.len() && k1 != k2 implies (
                        #[trigger] l1[k1]).0 != (#[trigger] l1[k2]).0 by {
                        let j1 = if k1 < i { k1 } else { k1 + 1 };
                        let j2 = if k2 < i { k2 } else { k2 + 1 };
                        assert(l1[k1] == l0[j1]);
                        assert(l1[k2] == l0[j2]);
                    }
                }
            },
            _ => {},
        }
    }
}

proof fn lemma_open_keeps_distinct(l0: Seq<(Seq<char>, usize)>, nm: Seq<char>, t: usize)
    requires
        names_distinct(l0),
        lifetime_index(l0, nm) < 0,
    ensures
        names_distinct(l0.push((nm, t))),
{
    crate::env::lemma_lifetime_index_exact(l0, nm);
    let l1 = l0.push((nm, t));
    assert forall|k1: int, k2: int|
        0 <= k1 < l1.len() && 0 <= k2 < l1.len() && k1 != k2 implies (#[trigger] l1[k1]).0 != (
        #[trigger] l1[k2]).0 by {
        if k1 < l0.len() {
            assert(l1[k1] == l0[k1]);
        }
        if k2 < l0.len() {
            assert(l1[k2] == l0[k2]);
        }
    }
}

/// After `name` is opened with `token`, any calls that do not close `name`
/// leave it open with that token (opening it again is refused).
proof fn lemma_stays_open(e: SEnv, cs: Seq<EnvCall>, name: Seq<char>, token: usize)
    requires
        names_distinct(e.lifetimes),
        exists|k: int| 0 <= k < e.lifetimes.len() && #[trigger] e.lifetimes[k] == (name, token),
        forall|i: int| 0 <= i < cs.len() ==> #[trigger] cs[i] != EnvCall::Close(name),
    ensures
        exists|k: int|
            0 <= k < env_run(e, cs).lifetimes.len() && #[trigger] env_run(e, cs).lifetimes[k] == (name, token),
    decreases cs.len(),
{
    if cs.len() == 0 {
        let k = choose|k: int| 0 <= k < e.lifetimes.len() && #[trigger] e.lifetimes[k] == (name, token);
        assert(env_run(e, cs).lifetimes[k] == (name, token));
    }
    if cs.len() > 0 {
        let d = cs.drop_last();
        assert forall|i: int| 0 <= i < d.len() implies #[trigger] d[i] != EnvCall::Close(name) by {
            assert(d[i] == cs[i]);
        }
        lemma_stays_open(e, d, name, token);
        law_calls_keep_lifetime_names_distinct(e, d);
        let e0 = env_run(e, d);
        let l0 = e0.lifetimes;
        let k = choose|k: int| 0 <= k < l0.len() && #[trigger] l0[k] == (name, token);
        assert(cs[cs.len() - 1] != EnvCall::Close(name));
        let l = env_run(e, cs).lifetimes;
        match cs.last() {
            EnvCall::Open(nm, t) => {
                if lifetime_index(l0, nm) < 0 {
                    assert(l == l0.push((nm, t)));
                }
                assert(l[k] == l0[k]);
            },
            EnvCall::Close(nm) => {
                crate::env::lemma_lifetime_index_bounds(l0, nm);
                let i = lifetime_index(l0, nm);
                if i >= 0 {
                    assert(nm != name);
                    assert(i != k);
                    assert(l == l0.remove(i));
                    if k < i {
                        assert(l[k] == l0[k]);
                    } else {
                        assert(l[k - 1] == l0[k]);
                    }
                } else {
                    assert(l[k] == l0[k]);
                }
            },
            _ => {
                assert(l == l0);
                assert(l[k] == l0[k]);
            },
        }
    }
}

/// A lifetime opened with `token`, after any calls that do not close it,
/// closes with that token; after that it is no longer open: closing it
/// again gives nothing, and opening it again succeeds.
pub proof fn law_close_after_open_across_calls(
    e: SEnv,
    name: Seq<char>,
    token: usize,
    cs: Seq<EnvCall>,
    token2: usize,
)
    requires
        names_distinct(e.lifetimes),
        lifetime_index(e.lifetimes, name) < 0,
        forall|i: int| 0 <= i < cs.len() ==> #[trigger] cs[i] != EnvCall::Close(name),
    ensures
        env_open_lifetime(e, name, token).0,
        env_close_lifetime(env_run(env_open_lifetime(e, name, token).1, cs), name).0 == Some(token),
        env_close_lifetime(
            env_close_lifetime(env_run(env_open_lifetime(e, name, token).1, cs), name).1,
            name,
        ).0 is None,
        env_open_lifetime(
            env_close_lifetime(env_run(env_open_lifetime(e, name, token).1, cs), name).1,
            name,
            token2,
        ).0,
{
    let e1 = env_open_lifetime(e, name, token).1;
    let n0 = e.lifetimes.len() as int;
    lemma_open_keeps_distinct(e.lifetimes, name, token);
    assert(e1.lifetimes == e.lifetimes.push((name, token)));
    assert(e1.lifetimes[n0] == (name, token));
    lemma_stays_open(e1, cs, name, token);
    law_calls_keep_lifetime_names_distinct(e1, cs);
    let e2 = env_run(e1, cs);
    let l2 = e2.lifetimes;
    let k = choose|k: int| 0 <= k < l2.len() && #[trigger] l2[k] == (name, token);
    crate::env::lemma_lifetime_index_exact(l2, name);
    assert(lifetime_index(l2, name) == k);
    let l3 = l2.remove(k);
    assert forall|j: int| 0 <= j < l3.len() implies (#[trigger] l3[j]).0 != name by {
        if j < k {
            assert(l3[j] == l2[j]);
        } else {
            assert(l3[j] == l2[j + 1]);
        }
    }
    crate::env::lemma_lifetime_index_exact(l3, name);
}


/// `n` is a `stmt` node holding `endlft` of the lifetime variable `name`.
pub open spec fn is_endlft_of(s: Seq<char>, n: SPair, name: Seq<char>) -> bool {
    &&& n.children.len() > 0
    &&& n.children[0].rule == Rule::endlft_stmt
    &&& n.children[0].children.len() >= 1
    &&& n.children[0].children[0].children.len() > 0
    &&& n.children[0].children[0].children[0].rule == Rule::lifetime_var
    &&& text_of(s, n.children[0].children[0].children[0]) == name
}

/// Lowering `endlft` of an open lifetime appends exactly one `qduc.end` of
/// its token and nothing else; afterwards the lifetime is no longer open, so
/// ending it again is refused as unknown, while opening it again succeeds.
pub proof fn law_endlft_ends_open_lifetime(
    c: LCtx,
    e: SEnv,
    b: SBody,
    blk: usize,
    n: SPair,
    name: Seq<char>,
    t: usize,
    t2: usize,
)
    requires
        env_ok(e, b),
        is_endlft_of(c.s, n, name),
        env_lifetime(e, name) == Some(t),
    ensures
        env_close_lifetime(e, name).0 == Some(t),
        spec_lower_stmt(c, e, b, blk, n) == Ok::<(SEnv, SBody), SLowerError>(
            (env_close_lifetime(e, name).1, with_op(b, blk, SOp::End { lifetime: t })),
        ),
        env_lifetime(env_close_lifetime(e, name).1, name) is None,
        spec_lower_stmt(c, env_close_lifetime(e, name).1, with_op(b, blk, SOp::End { lifetime: t }), blk, n)
            == Err::<(SEnv, SBody), SLowerError>(SLowerError::UnknownLifetime(quoted(name))),
        env_open_lifetime(env_close_lifetime(e, name).1, name, t2).0,
{
    let l = e.lifetimes;
    crate::env::lemma_lifetime_index_bounds(l, name);
    let k = lifetime_index(l, name);
    let l3 = l.remove(k);
    assert forall|j: int| 0 <= j < l3.len() implies (#[trigger] l3[j]).0 != name by {
        if j < k {
            assert(l3[j] == l[j]);
        } else {
            assert(l3[j] == l[j + 1]);
        }
    }
    crate::env::lemma_lifetime_index_exact(l3, name);
}


proof fn lemma_names_without_error_prefix(
    names: Seq<Seq<char>>,
    errs: Seq<(Seq<char>, SLowerError)>,
    k1: int,
    k2: int,
)
    requires
        0 <= k1 <= k2 <= names.len(),
    ensures
        names_without_error(names.take(k1), errs).len() <= names_without_error(names.take(k2), errs).len(),
        forall|j: int|
            0 <= j < names_without_error(names.take(k1), errs).len() ==> #[trigger] names_without_error(
                names.take(k2),
                errs,
            )[j] == names_without_error(names.take(k1), errs)[j],
    decreases k2,
{
    if k2 > k1 {
        lemma_names_without_error_prefix(names, errs, k1, k2 - 1);
        assert(names.take(k2).drop_last() =~= names.take(k2 - 1));
        let a = names_without_error(names.take(k2 - 1), errs);
        let b = names_without_error(names.take(k2), errs);
        assert forall|j: int| 0 <= j < a.len() implies #[trigger] b[j] == a[j] by {}
    }
}

proof fn lemma_results_content(
    names: Seq<Seq<char>>,
    errs: Seq<(Seq<char>, SLowerError)>,
    msgs: Seq<(Seq<char>, Seq<char>)>,
    ops: Seq<Seq<char>>,
    k: int,
)
    requires
        0 <= k <= names.len(),
        msgs.len() == errs.len(),
        forall|i: int| 0 <= i < msgs.len() ==> (#[trigger] msgs[i]).0 == errs[i].0,
    ensures
        forall|i: int|
            0 <= i < k ==> {
                let r = #[trigger] spec_function_results(names, msgs, ops, k).0[i];
                &&& r.ok == !has_error(errs, names[i])
                &&& r.ok ==> r.content == ops[names_without_error(names.take(i), errs).len() as int]
            },
    decreases k,
{
    if k > 0 {
        lemma_results_content(names, errs, msgs, ops, k - 1);
        law_one_result_per_function(names, msgs, ops, k - 1);
        law_results_take_one_text_per_lowered_name(names, errs, msgs, ops, k - 1);
        lemma_error_index_has_error(msgs, errs, names[k - 1]);
        let prev = spec_function_results(names, msgs, ops, k - 1).0;
        let cur = spec_function_results(names, msgs, ops, k).0;
        assert forall|i: int| 0 <= i < k - 1 implies cur[i] == prev[i] by {}
    }
}

/// For a program whose functions have distinct names: pairing the names of
/// its functions, in source order, with the messages of the errors that
/// lowering recorded (under their names) and with one text per lowered
/// function (in order) gives one result per name; a result is a failure
/// exactly when an error is recorded under its name, and then holds the
/// message of the last such error; otherwise it holds the text of the
/// lowered function of that name.
pub proof fn law_results_match_lowered_functions(
    s: Seq<char>,
    ps: Seq<SPair>,
    msgs: Seq<(Seq<char>, Seq<char>)>,
    ops: Seq<Seq<char>>,
)
    requires
        distinct_function_names(s, ps),
        msgs.len() == spec_lower_program(s, ps).errors.len(),
        forall|i: int| 0 <= i < msgs.len() ==> (#[trigger] msgs[i]).0 == spec_lower_program(s, ps).errors[i].0,
        ops.len() == spec_lower_program(s, ps).functions.len(),
    ensures
        ({
            let names = function_names(s, ps);
            let p = spec_lower_program(s, ps);
            let rs = spec_function_results(names, msgs, ops, names.len() as int).0;
            &&& rs.len() == names.len()
            &&& forall|i: int|
                0 <= i < names.len() ==> {
                    &&& (#[trigger] rs[i]).name == names[i]
                    &&& rs[i].ok == !has_error(p.errors, names[i])
                    &&& !rs[i].ok ==> rs[i].content == msgs[error_index(msgs, names[i])].1
                    &&& rs[i].ok ==> exists|j: int|
                        0 <= j < ops.len() && rs[i].content == ops[j] && p.functions[j].name == names[i]
                }
        }),
{
    let names = function_names(s, ps);
    let p = spec_lower_program(s, ps);
    let errs = p.errors;
    let n = names.len() as int;
    law_one_result_per_function(names, msgs, ops, n);
    lemma_results_content(names, errs, msgs, ops, n);
    law_lowered_functions_follow_names(s, ps);
    let fnames = p.functions.map_values(|f: SFunction| f.name);
    assert(fnames == names_without_error(names, errs));
    assert(names.take(n) =~= names);
    let rs = spec_function_results(names, msgs, ops, n).0;
    assert forall|i: int| 0 <= i < n && (#[trigger] rs[i]).ok implies exists|j: int|
        0 <= j < ops.len() && rs[i].content == ops[j] && p.functions[j].name == names[i] by {
        let j = names_without_error(names.take(i), errs).len() as int;
        lemma_names_without_error_prefix(names, errs, i + 1, n);
        assert(names.take(i + 1).drop_last() =~= names.take(i));
        assert(names.take(i + 1).last() == names[i]);
        lemma_error_index_has_error(msgs, errs, names[i]);
        assert(names_without_error(names.take(i + 1), errs)[j] == names[i]);
        assert(fnames[j] == names[i]);
        assert(j < fnames.len());
        assert(p.functions[j].name == fnames[j]);
    }
}


// ---------------------------------------------------------------- scopes while lowering

/// `e2` has the scopes of `e` but for the innermost one, which may have new
/// definitions.
pub open spec fn same_outer_scopes(e: SEnv, e2: SEnv) -> bool {
    &&& e2.scopes.len() == e.scopes.len()
    &&& e2.scopes.take(e.scopes.len() - 1) == e.scopes.take(e.scopes.len() - 1)
}

proof fn lemma_push_pop_restores(e: SEnv, e1: SEnv)
    requires
        same_outer_scopes(env_push_scope(e), e1),
    ensures
        env_pop_scope(e1).scopes == e.scopes,
        env_pop_scope(e1).lifetimes == e1.lifetimes,
{
    let n = e.scopes.len() as int;
    assert(env_push_scope(e).scopes.take(n) =~= e.scopes);
    assert(e1.scopes.drop_last() =~= e1.scopes.take(n));
}

proof fn lemma_expr_scopes(c: LCtx, e: SEnv, b: SBody, blk: usize, n: SPair)
    ensures
        spec_lower_expr(c, e, b, blk, n) matches Ok((_, e2, _)) ==> e2.scopes == e.scopes,
    decreases n, 3int,
{
    if n.children.len() > 0 {
        let inner = n.children[0];
        if inner.rule == Rule::tuple_expr && inner.children.len() >= 2 {
            lemma_expr_scopes(c, e, b, blk, inner.children[0]);
            if let Ok((_, e1, b1)) = spec_lower_expr(c, e, b, blk, inner.children[0]) {
                lemma_expr_scopes(c, e1, b1, blk, inner.children[1]);
            }
        } else if inner.rule == Rule::call_expr {
            lemma_call_scopes(c, e, b, blk, inner);
        } else if inner.rule == Rule::if_expr {
            lemma_if_scopes(c, e, b, blk, inner);
        } else if inner.rule == Rule::block {
            lemma_block_body_scopes(c, env_push_scope(e), b, blk, inner);
            if let Ok((_, e1, _)) = spec_lower_block_body(c, env_push_scope(e), b, blk, inner) {
                lemma_push_pop_restores(e, e1);
            }
        }
    }
}

proof fn lemma_args_scopes(c: LCtx, e: SEnv, b: SBody, blk: usize, args: Seq<SPair>, k: int)
    ensures
        spec_lower_args(c, e, b, blk, args, k) matches Ok((_, e2, _)) ==> e2.scopes == e.scopes,
    decreases args, k,
{
    if 0 < k <= args.len() {
        lemma_args_scopes(c, e, b, blk, args, k - 1);
        if let Ok((_, e1, b1)) = spec_lower_args(c, e, b, blk, args, k - 1) {
            lemma_expr_scopes(c, e1, b1, blk, args[k - 1]);
        }
    }
}

proof fn lemma_call_scopes(c: LCtx, e: SEnv, b: SBody, blk: usize, n: SPair)
    ensures
        spec_lower_call(c, e, b, blk, n) matches Ok((_, e2, _)) ==> e2.scopes == e.scopes,
    decreases n, 2int,
{
    if n.children.len() >= 2 {
        let args = n.children[1].children;
        lemma_args_scopes(c, e, b, blk, args, args.len() as int);
    }
}

proof fn lemma_branch_scopes(c: LCtx, e: SEnv, b: SBody, blk: usize, n: SPair)
    ensures
        spec_lower_branch(c, e, b, blk, n) matches Ok((_, e2, _)) ==> {
            &&& e2.scopes == e.scopes
            &&& e2.lifetimes == spec_lower_block_body(c, env_push_scope(e), b, blk, n)->Ok_0.1.lifetimes
        },
    decreases n, 1int,
{
    lemma_block_body_scopes(c, env_push_scope(e), b, blk, n);
    if let Ok((_, e1, _)) = spec_lower_block_body(c, env_push_scope(e), b, blk, n) {
        lemma_push_pop_restores(e, e1);
    }
}

proof fn lemma_if_scopes(c: LCtx, e: SEnv, b: SBody, blk: usize, n: SPair)
    ensures
        spec_lower_if(c, e, b, blk, n) matches Ok((_, e2, _)) ==> e2.scopes == e.scopes,
    decreases n, 2int,
{
    if n.children.len() >= 2 {
        lemma_expr_scopes(c, e, b, blk, n.children[0]);
        if let Ok((cv, e1, b1)) = spec_lower_expr(c, e, b, blk, n.children[0]) {
            let tb = b1.blocks.len() as usize;
            lemma_branch_scopes(c, e1, with_block(b1), tb, n.children[1]);
            if let Ok((tvals, e2, b2)) = spec_lower_branch(c, e1, with_block(b1), tb, n.children[1]) {
                let b3 = with_op(b2, tb, SOp::Yield { values: tvals });
                let eb = b3.blocks.len() as usize;
                if n.children.len() >= 3 {
                    lemma_branch_scopes(c, e2, with_block(b3), eb, n.children[2]);
                }
            }
        }
    }
}

proof fn lemma_block_body_scopes(c: LCtx, e: SEnv, b: SBody, blk: usize, n: SPair)
    ensures
        e.scopes.len() >= 1 ==> (spec_lower_block_body(c, e, b, blk, n) matches Ok((_, e2, _))
            ==> same_outer_scopes(e, e2)),
    decreases n, 0int,
{
    lemma_items_scopes(c, e, b, blk, n.children, n.children.len() as int);
}

proof fn lemma_items_scopes(c: LCtx, e: SEnv, b: SBody, blk: usize, cs: Seq<SPair>, k: int)
    ensures
        e.scopes.len() >= 1 ==> (spec_lower_items(c, e, b, blk, cs, k) matches Ok((_, e2, _))
            ==> same_outer_scopes(e, e2)),
    decreases cs, k,
{
    if 0 < k <= cs.len() {
        lemma_items_scopes(c, e, b, blk, cs, k - 1);
        if let Ok((_, e1, b1)) = spec_lower_items(c, e, b, blk, cs, k - 1) {
            let item = cs[k - 1];
            if item.rule == Rule::stmt {
                lemma_stmt_scopes(c, e1, b1, blk, item);
            } else if item.rule == Rule::expr {
                lemma_expr_scopes(c, e1, b1, blk, item);
            }
        }
    }
}

proof fn lemma_define_scopes(e: SEnv, name: Seq<char>, v: SLV)
    requires
        e.scopes.len() >= 1,
    ensures
        same_outer_scopes(e, env_define(e, name, v)),
{
    let n = e.scopes.len() - 1;
    assert(env_define(e, name, v).scopes.take(n) =~= e.scopes.take(n));
}

proof fn lemma_stmt_scopes(c: LCtx, e: SEnv, b: SBody, blk: usize, n: SPair)
    ensures
        e.scopes.len() >= 1 ==> (spec_lower_stmt(c, e, b, blk, n) matches Ok((e2, _)) ==> same_outer_scopes(
            e,
            e2,
        )),
    decreases n, 3int,
{
    if n.children.len() > 0 && e.scopes.len() >= 1 {
        let inner = n.children[0];
        if inner.rule == Rule::let_stmt && inner.children.len() >= 3 {
            lemma_expr_scopes(c, e, b, blk, inner.children[2]);
            if let Ok((v, e1, _)) = spec_lower_expr(c, e, b, blk, inner.children[2]) {
                lemma_define_scopes(e1, text_of(c.s, inner.children[0]), v);
            }
        } else if inner.rule == Rule::expr_stmt && inner.children.len() >= 1 {
            lemma_expr_scopes(c, e, b, blk, inner.children[0]);
        } else if inner.rule == Rule::borrow_stmt && inner.children.len() >= 3 {
            if let Ok((e2, _)) = spec_lower_stmt(c, e, b, blk, n) {
                let r = b.types.len() as usize;
                lemma_define_scopes(e, text_of(c.s, inner.children[0]), SLV::Single(r));
            }
        } else {
            assert(e.scopes.take(e.scopes.len() - 1) =~= e.scopes.take(e.scopes.len() - 1));
        }
    }
}

/// Lowering a block expression leaves every name as it was: what the block
/// defines is gone afterwards, and a name it hid is visible again; so does
/// lowering a branch of an `if`, while the lifetimes that the branch opens or
/// closes stay as the branch left them.
pub proof fn law_blocks_keep_names(c: LCtx, e: SEnv, b: SBody, blk: usize, n: SPair, name: Seq<char>)
    ensures
        spec_lower_expr(c, e, b, blk, n) matches Ok((_, e2, _)) ==> e2.scopes == e.scopes && env_lookup(
            e2,
            name,
        ) == env_lookup(e, name),
        spec_lower_branch(c, e, b, blk, n) matches Ok((_, e2, _)) ==> {
            &&& e2.scopes == e.scopes
            &&& env_lookup(e2, name) == env_lookup(e, name)
            &&& e2.lifetimes == spec_lower_block_body(c, env_push_scope(e), b, blk, n)->Ok_0.1.lifetimes
        },
{
    lemma_expr_scopes(c, e, b, blk, n);
    lemma_branch_scopes(c, e, b, blk, n);
}


// ---------------------------------------------------------------- statements and blocks

/// An expression statement lowers as its expression does: it appends
/// exactly the operations its expression appends, leaves the environment as
/// its expression leaves it, and fails with its expression's error.
pub proof fn law_expr_stmt_lowers_its_expression(c: LCtx, e: SEnv, b: SBody, blk: usize, n: SPair)
    requires
        n.children.len() > 0,
        n.children[0].rule == Rule::expr_stmt,
        n.children[0].children.len() >= 1,
    ensures
        match spec_lower_expr(c, e, b, blk, n.children[0].children[0]) {
            Ok((_, e1, b1)) => spec_lower_stmt(c, e, b, blk, n) == Ok::<(SEnv, SBody), SLowerError>((e1, b1)),
            Err(x) => spec_lower_stmt(c, e, b, blk, n) == Err::<(SEnv, SBody), SLowerError>(x),
        },
{
}

/// A call that lowers ends with a `func.call` of its callee, appended to the
/// block it is lowered into, whose results are fresh values.
pub proof fn law_call_appends_func_call(c: LCtx, e: SEnv, b: SBody, blk: usize, n: SPair)
    ensures
        spec_lower_call(c, e, b, blk, n) matches Ok((_, _, b2)) ==> {
            &&& b2.ops.len() > 0
            &&& b2.ops.last().0 == blk
            &&& b2.ops.last().1 matches SOp::Call { callee, .. } && callee == text_of(c.s, n.children[0])
        },
{
}

/// An expression that is a call lowers as that call.
pub proof fn law_call_expression_is_a_call(c: LCtx, e: SEnv, b: SBody, blk: usize, n: SPair)
    requires
        n.children.len() > 0,
        n.children[0].rule == Rule::call_expr,
    ensures
        spec_lower_expr(c, e, b, blk, n) == spec_lower_call(c, e, b, blk, n.children[0]),
{
}

/// The items `cs[0..k]` of a block give a value exactly when one of them is
/// an expression.
proof fn lemma_items_value(c: LCtx, e: SEnv, b: SBody, blk: usize, cs: Seq<SPair>, k: int)
    requires
        0 <= k <= cs.len(),
    ensures
        spec_lower_items(c, e, b, blk, cs, k) matches Ok((t, _, _)) ==> (t is Some <==> exists|i: int|
            0 <= i < k && (#[trigger] cs[i]).rule == Rule::expr),
    decreases k,
{
    if k > 0 {
        lemma_items_value(c, e, b, blk, cs, k - 1);
        if let Ok((t, _, _)) = spec_lower_items(c, e, b, blk, cs, k) {
            if cs[k - 1].rule == Rule::expr {
                assert(cs[k - 1].rule == Rule::expr);
            } else if exists|i: int| 0 <= i < k && (#[trigger] cs[i]).rule == Rule::expr {
                let i = choose|i: int| 0 <= i < k && (#[trigger] cs[i]).rule == Rule::expr;
                assert(i < k - 1);
            }
        }
    }
}

/// The value of a block expression is the value of its trailing
/// expression, and unit only when it has none: its body, lowered in a scope
/// of its own, gives a value exactly when the block holds an expression, and
/// the block expression has that value, with the operations the body appended.
pub proof fn law_block_value_is_its_trailing_value(c: LCtx, e: SEnv, b: SBody, blk: usize, n: SPair)
    requires
        n.children.len() > 0,
        n.children[0].rule == Rule::block,
    ensures
        spec_lower_expr(c, e, b, blk, n) matches Ok((v, _, b2)) ==> (spec_lower_block_body(
            c,
            env_push_scope(e),
            b,
            blk,
            n.children[0],
        ) matches Ok((t, _, b1)) && b1 == b2 && (t matches Some(w) ==> v == w) && (t is None ==> v
            == unit_lv()) && (t is Some <==> exists|i: int|
            0 <= i < n.children[0].children.len() && (#[trigger] n.children[0].children[i]).rule
                == Rule::expr)),
{
    let inner = n.children[0];
    lemma_items_value(c, env_push_scope(e), b, blk, inner.children, inner.children.len() as int);
}


/// When the last of a block's items is an expression, the block's value is
/// that expression's value, lowered after the items before it, with the
/// environment and body it leaves.
pub proof fn law_block_value_comes_from_its_last_expression(
    c: LCtx,
    e: SEnv,
    b: SBody,
    blk: usize,
    cs: Seq<SPair>,
    k: int,
)
    requires
        0 < k <= cs.len(),
        cs[k - 1].rule == Rule::expr,
    ensures
        spec_lower_items(c, e, b, blk, cs, k) matches Ok((t, e2, b2)) ==> (spec_lower_items(
            c,
            e,
            b,
            blk,
            cs,
            k - 1,
        ) matches Ok((_, e1, b1)) && t matches Some(v) && spec_lower_expr(c, e1, b1, blk, cs[k - 1])
            == Ok::<(SLV, SEnv, SBody), SLowerError>((v, e2, b2))),
{
}

} // verus!
