//! Lowering a whole program: signatures first, then each function's body.
use vstd::prelude::*;

use crate::error::{LowerError, SLowerError, err_view};
use crate::function::{
    LoweredFunction, SFunction, collect_signature, function_view, lemma_collect_signature_ok,
    lower_function, spec_collect_signature, spec_lower_function,
};
use crate::grammar::Rule;
use crate::ir::body_ok;
use crate::lowering::LCtx;
use crate::signature::{
    FunctionSignature, SSig, lemma_sig_lookup_ok, lookup_signature, sig_lookup, sig_ok, sig_view,
    sigs_ok, sigs_view,
};
use crate::tree::{Pair, SPair, lemma_pair_view_children, pair_view, pairs_view, text_of};

verus! {

/// What lowering a function body reads: the source text it was parsed from,
/// and the signatures of all functions of the program.
pub struct Lowerer<'s> {
    pub input: &'s str,
    pub signatures: &'s Vec<(String, FunctionSignature)>,
}

impl<'s> Lowerer<'s> {
    pub open spec fn ctx(&self) -> LCtx {
        LCtx { s: self.input@, sigs: sigs_view(self.signatures@) }
    }
}

/// The name of a function node: the text of its first child.
pub open spec fn function_name_of(s: Seq<char>, f: SPair) -> Seq<char> {
    if f.children.len() > 0 {
        text_of(s, f.children[0])
    } else {
        Seq::empty()
    }
}

/// The name of a function node.
pub fn function_name(function_pair: &Pair, input: &str) -> (r: String)
    ensures
        r@ == function_name_of(input@, pair_view(*function_pair)),
{
    proof {
        lemma_pair_view_children(*function_pair);
    }
    if function_pair.children.len() > 0 {
        function_pair.children[0].text(input)
    } else {
        String::new()
    }
}

/// The result of lowering a program: the functions that lowered, in source
/// order, and for each function that did not, its name and why.
pub struct LoweredProgram {
    pub functions: Vec<LoweredFunction>,
    pub errors: Vec<(String, LowerError)>,
}

/// Model of a [`LoweredProgram`].
pub struct SProgram {
    pub functions: Seq<SFunction>,
    pub errors: Seq<(Seq<char>, SLowerError)>,
}

pub open spec fn errors_view(v: Seq<(String, LowerError)>) -> Seq<(Seq<char>, SLowerError)> {
    v.map_values(|e: (String, LowerError)| (e.0@, err_view(e.1)))
}

pub open spec fn functions_view(v: Seq<LoweredFunction>) -> Seq<SFunction> {
    v.map_values(|f: LoweredFunction| function_view(f))
}

pub open spec fn program_view(p: LoweredProgram) -> SProgram {
    SProgram { functions: functions_view(p.functions@), errors: errors_view(p.errors@) }
}

/// First pass over the nodes `ps[0..k]`: the signature of each function
/// node, recorded under its name, or its name and the error.
pub open spec fn spec_collect_all(s: Seq<char>, ps: Seq<SPair>, k: int) -> (
    Seq<(Seq<char>, SSig)>,
    Seq<(Seq<char>, SLowerError)>,
)
    decreases k,
{
    if k <= 0 || k > ps.len() {
        (Seq::empty(), Seq::empty())
    } else {
        let (sigs, errs) = spec_collect_all(s, ps, k - 1);
        let f = ps[k - 1];
        if f.rule != Rule::function {
            (sigs, errs)
        } else {
            match spec_collect_signature(s, f) {
                Ok((name, sig)) => (sigs.push((name, sig)), errs),
                Err(x) => (sigs, errs.push((function_name_of(s, f), x))),
            }
        }
    }
}

/// Second pass over the nodes `ps[0..k]`, after the errors `errs0` of the
/// first: each function node whose name has a signature is lowered with the
/// signature recorded last for that name; the ones that fail join the errors.
pub open spec fn spec_lower_all(
    c: LCtx,
    ps: Seq<SPair>,
    k: int,
    errs0: Seq<(Seq<char>, SLowerError)>,
) -> (Seq<SFunction>, Seq<(Seq<char>, SLowerError)>)
    decreases k,
{
    if k <= 0 || k > ps.len() {
        (Seq::empty(), errs0)
    } else {
        let (fs, errs) = spec_lower_all(c, ps, k - 1, errs0);
        let f = ps[k - 1];
        let name = function_name_of(c.s, f);
        if f.rule != Rule::function {
            (fs, errs)
        } else {
            match sig_lookup(c.sigs, name) {
                None => (fs, errs),
                Some(sig) => match spec_lower_function(c, sig, f) {
                    Ok(lf) => (fs.push(lf), errs),
                    Err(x) => (fs, errs.push((name, x))),
                },
            }
        }
    }
}

/// Lowering a program's top-level nodes: the signatures of all its
/// functions, then the body of each function whose signature was collected.
pub open spec fn spec_lower_program(s: Seq<char>, ps: Seq<SPair>) -> SProgram {
    let (sigs, errs) = spec_collect_all(s, ps, ps.len() as int);
    let (fs, errs2) = spec_lower_all(LCtx { s, sigs }, ps, ps.len() as int, errs);
    SProgram { functions: fs, errors: errs2 }
}

pub proof fn lemma_collect_all_ok(s: Seq<char>, ps: Seq<SPair>, k: int)
    ensures
        sigs_ok(spec_collect_all(s, ps, k).0),
    decreases k,
{
    if 0 < k <= ps.len() {
        lemma_collect_all_ok(s, ps, k - 1);
        lemma_collect_signature_ok(s, ps[k - 1]);
        let (sigs, errs) = spec_collect_all(s, ps, k - 1);
        let r = spec_collect_all(s, ps, k).0;
        assert forall|i: int| 0 <= i < r.len() implies #[trigger] sig_ok(r[i].1) by {
            if i < sigs.len() {
                assert(r[i] == sigs[i]);
            }
        }
    }
}

/// Lowers a program's top-level nodes (as the parser gives them for
/// `program`). Functions whose signature or body cannot be lowered are left
/// out and recorded in `errors`. Every operation of every lowered function
/// refers only to values and blocks of that function, and uses only
/// lifetimes that are open where it stands (see [`body_ok`]).
pub fn lower_program(input: &str, pairs: &Vec<Pair>) -> (r: LoweredProgram)
    ensures
        program_view(r) == spec_lower_program(input@, pairs_view(pairs@)),
        forall|k: int| 0 <= k < r.functions@.len() ==> body_ok(#[trigger] r.functions@[k].body@),
{
    let ghost s = input@;
    let ghost ps = pairs_view(pairs@);
    let mut signatures: Vec<(String, FunctionSignature)> = Vec::new();
    let mut errors: Vec<(String, LowerError)> = Vec::new();
    let mut i: usize = 0;
    proof {
        assert(sigs_view(signatures@) =~= Seq::<(Seq<char>, SSig)>::empty());
        assert(errors_view(errors@) =~= Seq::<(Seq<char>, SLowerError)>::empty());
    }
    while i < pairs.len()
        invariant
            i <= pairs@.len(),
            s == input@,
            ps == pairs_view(pairs@),
            spec_collect_all(s, ps, i as int) == (sigs_view(signatures@), errors_view(errors@)),
        decreases pairs@.len() - i,
    {
        let function_pair = &pairs[i];
        assert(ps[i as int] == pair_view(*function_pair));
        let ghost prev = spec_collect_all(s, ps, i as int);
        assert(spec_collect_all(s, ps, i + 1) == (if ps[i as int].rule != Rule::function {
            prev
        } else {
            match spec_collect_signature(s, ps[i as int]) {
                Ok((name, sig)) => (prev.0.push((name, sig)), prev.1),
                Err(x) => (prev.0, prev.1.push((function_name_of(s, ps[i as int]), x))),
            }
        }));
        if function_pair.rule == Rule::function {
            let name = function_name(function_pair, input);
            match collect_signature(function_pair, input) {
                Ok((sig_name, signature)) => {
                    let ghost before = signatures@;
                    let ghost e = (sig_name, signature);
                    signatures.push((sig_name, signature));
                    proof {
                        assert(sigs_view(signatures@) =~= sigs_view(before).push(
                            (e.0@, sig_view(e.1)),
                        ));
                    }
                },
                Err(error) => {
                    let ghost before = errors@;
                    let ghost e = (name, error);
                    errors.push((name, error));
                    proof {
                        assert(errors_view(errors@) =~= errors_view(before).push(
                            (e.0@, err_view(e.1)),
                        ));
                    }
                },
            }
        }
        i = i + 1;
    }
    proof {
        lemma_collect_all_ok(s, ps, ps.len() as int);
    }
    let lowerer = Lowerer { input, signatures: &signatures };
    let ghost c = lowerer.ctx();
    let ghost errs0 = errors_view(errors@);
    let mut functions: Vec<LoweredFunction> = Vec::new();
    let mut j: usize = 0;
    proof {
        assert(functions_view(functions@) =~= Seq::<SFunction>::empty());
    }
    while j < pairs.len()
        invariant
            j <= pairs@.len(),
            s == input@,
            ps == pairs_view(pairs@),
            c == lowerer.ctx(),
            c.s == s,
            c.sigs == sigs_view(signatures@),
            sigs_ok(c.sigs),
            spec_lower_all(c, ps, j as int, errs0) == (
                functions_view(functions@),
                errors_view(errors@),
            ),
            forall|k: int| 0 <= k < functions@.len() ==> body_ok(#[trigger] functions@[k].body@),
        decreases pairs@.len() - j,
    {
        let function_pair = &pairs[j];
        assert(ps[j as int] == pair_view(*function_pair));
        let ghost prev = spec_lower_all(c, ps, j as int, errs0);
        let ghost f = ps[j as int];
        let ghost fname = function_name_of(c.s, f);
        assert(spec_lower_all(c, ps, j + 1, errs0) == (if f.rule != Rule::function {
            prev
        } else {
            match sig_lookup(c.sigs, fname) {
                None => prev,
                Some(sig) => match spec_lower_function(c, sig, f) {
                    Ok(lf) => (prev.0.push(lf), prev.1),
                    Err(x) => (prev.0, prev.1.push((fname, x))),
                },
            }
        }));
        if function_pair.rule == Rule::function {
            let name = function_name(function_pair, input);
            proof {
                lemma_sig_lookup_ok(c.sigs, name@);
            }
            match lookup_signature(&signatures, &name) {
                None => {},
                Some(signature) => match lower_function(&lowerer, signature, function_pair) {
                    Ok(f) => {
                        let ghost before = functions@;
                        let ghost gf = f;
                        functions.push(f);
                        proof {
                            assert forall|k: int| 0 <= k < functions@.len() implies body_ok(
                                #[trigger] functions@[k].body@,
                            ) by {
                                if k < before.len() {
                                    assert(functions@[k] == before[k]);
                                }
                            }
                            assert(functions_view(functions@) =~= functions_view(before).push(
                                function_view(gf),
                            ));
                        }
                    },
                    Err(error) => {
                        let ghost before = errors@;
                        let ghost e = (name, error);
                        errors.push((name, error));
                        proof {
                            assert(errors_view(errors@) =~= errors_view(before).push(
                                (e.0@, err_view(e.1)),
                            ));
                        }
                    },
                },
            }
        }
        j = j + 1;
    }
    LoweredProgram { functions, errors }
}

} // verus!
