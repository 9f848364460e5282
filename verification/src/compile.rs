//! The stages that the playground shows for a source text: the text itself,
//! its parse tree, and the lowered functions.
use vstd::prelude::*;
use vstd::string::StringExecFns;

use crate::grammar::Rule;
use crate::parser::{QurtsParser, spec_parse};
use crate::program::{function_name, function_name_of};
use crate::tree::{Pair, SPair, pair_view, pairs_view, text_of};

verus! {

/// The outcome of lowering one function: its name, whether it lowered, and
/// either its lowered form or the reason it was rejected.
pub struct FunctionResult {
    pub name: String,
    pub ok: bool,
    pub content: String,
}

/// What a stage shows: a text, or one result per function.
pub enum StageContent {
    Text { content: String },
    Functions { functions: Vec<FunctionResult> },
}

/// One stage of the pipeline, with its identifier and its label.
pub struct Stage {
    pub id: String,
    pub label: String,
    pub content: StageContent,
}

/// A stage that shows a text.
pub fn text_stage(id: &str, label: &str, content: String) -> (st: Stage)
    ensures
        st.id@ == id@,
        st.label@ == label@,
        st.content matches StageContent::Text { content: c } && c == content,
{
    Stage {
        id: String::from_str(id),
        label: String::from_str(label),
        content: StageContent::Text { content },
    }
}

/// The names of the function nodes among `ps`, in order.
pub open spec fn function_names(s: Seq<char>, ps: Seq<SPair>) -> Seq<Seq<char>>
    decreases ps.len(),
{
    if ps.len() == 0 {
        Seq::empty()
    } else {
        let rest = function_names(s, ps.drop_last());
        if ps.last().rule == Rule::function {
            rest.push(function_name_of(s, ps.last()))
        } else {
            rest
        }
    }
}

/// The names of the functions of `source`, in the order they are written.
pub fn function_names_in_order(source: &str) -> (names: Vec<String>)
    requires
        spec_parse(Rule::program, source@) is Ok,
    ensures
        names@.map_values(|n: String| n@) == function_names(
            source@,
            spec_parse(Rule::program, source@)->Ok_0,
        ),
{
    let pairs = match QurtsParser::parse(Rule::program, source) {
        Ok(pairs) => pairs,
        Err(_) => {
            return Vec::new();
        },
    };
    let ghost ps = pairs_view(pairs@);
    let mut names: Vec<String> = Vec::new();
    let mut i: usize = 0;
    while i < pairs.len()
        invariant
            i <= pairs@.len(),
            ps == pairs_view(pairs@),
            names@.map_values(|n: String| n@) == function_names(source@, ps.take(i as int)),
        decreases pairs@.len() - i,
    {
        proof {
            assert(ps.take(i + 1).drop_last() =~= ps.take(i as int));
        }
        if pairs[i].rule == Rule::function {
            let name = function_name(&pairs[i], source);
            names.push(name);
            proof {
                assert(names@.map_values(|n: String| n@) =~= names@.drop_last().map_values(
                    |n: String| n@,
                ).push(name@));
            }
        }
        i = i + 1;
    }
    proof {
        assert(ps.take(pairs@.len() as int) =~= ps);
    }
    names
}


/// Model of a [`FunctionResult`].
pub struct SFunctionResult {
    pub name: Seq<char>,
    pub ok: bool,
    pub content: Seq<char>,
}

pub open spec fn result_view(r: FunctionResult) -> SFunctionResult {
    SFunctionResult { name: r.name@, ok: r.ok, content: r.content@ }
}

/// The position of the last error recorded for `name`, or -1.
pub open spec fn error_index(errs: Seq<(Seq<char>, Seq<char>)>, name: Seq<char>) -> int
    decreases errs.len(),
{
    if errs.len() == 0 {
        -1
    } else if errs.last().0 == name {
        errs.len() - 1
    } else {
        error_index(errs.drop_last(), name)
    }
}

/// One result per name of `names[0..k]`, in order: a name with a recorded
/// error gets the last error recorded for it; any other name gets the next
/// lowered function's text from `ops`. Also gives how many texts were taken.
pub open spec fn spec_function_results(
    names: Seq<Seq<char>>,
    errs: Seq<(Seq<char>, Seq<char>)>,
    ops: Seq<Seq<char>>,
    k: int,
) -> (Seq<SFunctionResult>, int)
    decreases k,
{
    if k <= 0 || k > names.len() {
        (Seq::empty(), 0)
    } else {
        let (rs, used) = spec_function_results(names, errs, ops, k - 1);
        let name = names[k - 1];
        let i = error_index(errs, name);
        if i >= 0 {
            (rs.push(SFunctionResult { name, ok: false, content: errs[i].1 }), used)
        } else {
            (rs.push(SFunctionResult { name, ok: true, content: ops[used] }), used + 1)
        }
    }
}

pub proof fn lemma_error_index_bounds(errs: Seq<(Seq<char>, Seq<char>)>, name: Seq<char>)
    ensures
        -1 <= error_index(errs, name) < errs.len(),
    decreases errs.len(),
{
    if errs.len() > 0 && errs.last().0 != name {
        lemma_error_index_bounds(errs.drop_last(), name);
    }
}

pub proof fn lemma_results_used_grows(
    names: Seq<Seq<char>>,
    errs: Seq<(Seq<char>, Seq<char>)>,
    ops: Seq<Seq<char>>,
    k: int,
    k2: int,
)
    requires
        0 <= k <= k2 <= names.len(),
    ensures
        0 <= spec_function_results(names, errs, ops, k).1 <= spec_function_results(
            names,
            errs,
            ops,
            k2,
        ).1,
    decreases k2,
{
    if k2 > k {
        lemma_results_used_grows(names, errs, ops, k, k2 - 1);
    } else {
        lemma_results_used_nonneg(names, errs, ops, k);
    }
}

pub proof fn lemma_results_used_nonneg(
    names: Seq<Seq<char>>,
    errs: Seq<(Seq<char>, Seq<char>)>,
    ops: Seq<Seq<char>>,
    k: int,
)
    ensures
        0 <= spec_function_results(names, errs, ops, k).1,
    decreases k,
{
    if 0 < k <= names.len() {
        lemma_results_used_nonneg(names, errs, ops, k - 1);
    }
}

fn error_position(errs: &Vec<(String, String)>, name: &String) -> (r: Option<usize>)
    ensures
        match r {
            Some(i) => error_index(errs@.map_values(|e: (String, String)| (e.0@, e.1@)), name@)
                == i as int && i < errs@.len(),
            None => error_index(errs@.map_values(|e: (String, String)| (e.0@, e.1@)), name@)
                == -1,
        },
{
    let ghost ev = errs@.map_values(|e: (String, String)| (e.0@, e.1@));
    let mut i = errs.len();
    proof {
        assert(ev.take(i as int) =~= ev);
    }
    while i > 0
        invariant
            i <= errs@.len(),
            ev == errs@.map_values(|e: (String, String)| (e.0@, e.1@)),
            error_index(ev, name@) == error_index(ev.take(i as int), name@),
        decreases i,
    {
        proof {
            assert(ev.take(i as int).drop_last() =~= ev.take(i - 1));
            assert(ev.take(i as int).last() == ev[i - 1]);
        }
        if errs[i - 1].0 == *name {
            return Some(i - 1);
        }
        i = i - 1;
    }
    None
}

/// The result of each function, by name in source order: an error message
/// for each name with a recorded error (the last one recorded), otherwise the
/// next text of `op_texts`, the lowered functions in order.
pub fn function_results(
    names: &Vec<String>,
    errors: &Vec<(String, String)>,
    op_texts: &Vec<String>,
) -> (r: Vec<FunctionResult>)
    requires
        spec_function_results(
            names@.map_values(|n: String| n@),
            errors@.map_values(|e: (String, String)| (e.0@, e.1@)),
            op_texts@.map_values(|t: String| t@),
            names@.len() as int,
        ).1 <= op_texts@.len(),
    ensures
        r@.map_values(|x: FunctionResult| result_view(x)) == spec_function_results(
            names@.map_values(|n: String| n@),
            errors@.map_values(|e: (String, String)| (e.0@, e.1@)),
            op_texts@.map_values(|t: String| t@),
            names@.len() as int,
        ).0,
{
    let ghost nv = names@.map_values(|n: String| n@);
    let ghost ev = errors@.map_values(|e: (String, String)| (e.0@, e.1@));
    let ghost ov = op_texts@.map_values(|t: String| t@);
    let mut out: Vec<FunctionResult> = Vec::new();
    let mut used: usize = 0;
    let mut k: usize = 0;
    proof {
        assert(out@.map_values(|x: FunctionResult| result_view(x)) =~= Seq::<SFunctionResult>::empty());
    }
    while k < names.len()
        invariant
            k <= names@.len(),
            nv == names@.map_values(|n: String| n@),
            ev == errors@.map_values(|e: (String, String)| (e.0@, e.1@)),
            ov == op_texts@.map_values(|t: String| t@),
            spec_function_results(nv, ev, ov, names@.len() as int).1 <= op_texts@.len(),
            (out@.map_values(|x: FunctionResult| result_view(x)), used as int)
                == spec_function_results(nv, ev, ov, k as int),
        decreases names@.len() - k,
    {
        let ghost before = out@;
        let name = names[k].clone();
        proof {
            lemma_results_used_grows(nv, ev, ov, k + 1, names@.len() as int);
            assert(nv[k as int] == name@);
        }
        match error_position(errors, &name) {
            Some(i) => {
                let content = errors[i].1.clone();
                let ghost item = FunctionResult { name, ok: false, content };
                out.push(FunctionResult { name, ok: false, content });
                proof {
                    assert(out@.map_values(|x: FunctionResult| result_view(x)) =~= before.map_values(
                        |x: FunctionResult| result_view(x),
                    ).push(result_view(item)));
                }
            },
            None => {
                let total = op_texts.len();
                assert(used < total);
                let content = op_texts[used].clone();
                let ghost item = FunctionResult { name, ok: true, content };
                out.push(FunctionResult { name, ok: true, content });
                used = used + 1;
                proof {
                    assert(out@.map_values(|x: FunctionResult| result_view(x)) =~= before.map_values(
                        |x: FunctionResult| result_view(x),
                    ).push(result_view(item)));
                }
            },
        }
        k = k + 1;
    }
    out
}

} // verus!
