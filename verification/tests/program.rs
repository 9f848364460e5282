use qurts::compile::{function_names_in_order, function_results, text_stage, StageContent};
use qurts::env::Env;
use qurts::error::LowerError;
use qurts::format::format_parse_tree;
use qurts::function::LoweredFunction;
use qurts::grammar::Rule;
use qurts::ir::{Body, Op, Ty};
use qurts::parser::{ParseError, QurtsParser};
use qurts::program::{lower_program, LoweredProgram};
use qurts::value::{param_shape_len, LoweredValue, Shape};

fn lower(source: &str) -> LoweredProgram {
    let pairs = QurtsParser::parse(Rule::program, source).unwrap();
    lower_program(source, &pairs)
}

fn error_names(p: &LoweredProgram) -> Vec<String> {
    p.errors.iter().map(|(n, _)| n.clone()).collect()
}

fn function_names(p: &LoweredProgram) -> Vec<String> {
    p.functions.iter().map(|f| f.name.clone()).collect()
}

/// Every operation stands in a block of its body, reads and defines values
/// of its body, and its regions are blocks of its body.
fn well_formed(f: &LoweredFunction) -> bool {
    let b: &Body = &f.body;
    let nv = b.types.len();
    let nb = b.blocks.len();
    let vals = |vs: &Vec<usize>| vs.iter().all(|v| *v < nv);
    b.ops.iter().all(|(blk, op)| {
        *blk < nb
            && match op {
                Op::Constant { result, .. } => *result < nv,
                Op::Call { operands, results, .. } => vals(operands) && vals(results),
                Op::If { condition, then_block, else_block, results } => {
                    *condition < nv && *then_block < nb && *else_block < nb && vals(results)
                }
                Op::Yield { values } => vals(values),
                Op::Return { values } => vals(values),
                Op::NewLft { result } => *result < nv,
                Op::End { lifetime } => *lifetime < nv,
                Op::Borrow { source, lifetime, result } => {
                    *source < nv && *lifetime < nv && *result < nv
                }
            }
    })
}

#[test]
fn lowers_constant_function() {
    let p = lower("fn f() -> bool { true }");
    assert!(p.errors.is_empty());
    assert_eq!(function_names(&p), vec!["f".to_string()]);
    let f = &p.functions[0];
    assert!(f.param_types.is_empty());
    assert!(matches!(f.result_types.as_slice(), [Ty::I1]));
    assert_eq!(f.body.ops.len(), 2);
    assert!(matches!(f.body.ops[0], (0, Op::Constant { result: 0, value: true })));
    assert!(matches!(&f.body.ops[1], (0, Op::Return { values }) if *values == vec![0]));
    assert!(well_formed(f));
}

#[test]
fn lowers_false_literal() {
    let p = lower("fn f() -> bool { false }");
    assert!(matches!(p.functions[0].body.ops[0], (0, Op::Constant { result: 0, value: false })));
}

#[test]
fn lowers_call_to_later_function() {
    let p = lower("fn g() -> bool { f() } fn f() -> bool { true }");
    assert!(p.errors.is_empty());
    assert_eq!(function_names(&p), vec!["g".to_string(), "f".to_string()]);
    let g = &p.functions[0];
    assert!(matches!(&g.body.ops[0],
        (0, Op::Call { callee, operands, results })
            if callee == "f" && operands.is_empty() && *results == vec![0]));
    assert!(matches!(&g.body.ops[1], (0, Op::Return { values }) if *values == vec![0]));
    assert!(p.functions.iter().all(well_formed));
}

#[test]
fn parameters_become_entry_block_arguments() {
    let p = lower("fn f(x : bool, y : qbit) -> (bool, qbit) { (x, y) }");
    assert!(p.errors.is_empty());
    let f = &p.functions[0];
    assert!(matches!(f.param_types.as_slice(), [Ty::I1, Ty::Qbit]));
    assert!(matches!(f.result_types.as_slice(), [Ty::I1, Ty::Qbit]));
    assert_eq!(f.body.blocks, vec![vec![0, 1]]);
    assert!(matches!(&f.body.ops[0], (0, Op::Return { values }) if *values == vec![0, 1]));
}

#[test]
fn tuple_results_are_regrouped_at_calls() {
    let p = lower(
        "fn pair(x : bool, y : bool) -> (bool, bool) { (y, x) } \
         fn f(a : bool, b : bool) -> (bool, bool) { let t : (bool, bool) = pair(a, b); t }",
    );
    assert!(p.errors.is_empty());
    let f = &p.functions[1];
    assert!(matches!(&f.body.ops[0],
        (0, Op::Call { callee, operands, results })
            if callee == "pair" && *operands == vec![0, 1] && *results == vec![2, 3]));
    assert!(matches!(&f.body.ops[1], (0, Op::Return { values }) if *values == vec![2, 3]));
    assert!(p.functions.iter().all(well_formed));
}

#[test]
fn lowers_if_into_two_blocks() {
    let p = lower("fn f(x : bool) -> bool { if x { true } else { false } }");
    assert!(p.errors.is_empty());
    let f = &p.functions[0];
    assert_eq!(f.body.blocks.len(), 3);
    assert!(f.body.ops.iter().any(|(blk, op)| *blk == 0
        && matches!(op, Op::If { condition: 0, then_block: 1, else_block: 2, results } if results.len() == 1)));
    assert!(f.body.ops.iter().any(|(blk, op)| *blk == 1 && matches!(op, Op::Yield { values } if values.len() == 1)));
    assert!(f.body.ops.iter().any(|(blk, op)| *blk == 2 && matches!(op, Op::Yield { values } if values.len() == 1)));
    assert!(well_formed(f));
}

#[test]
fn if_without_else_yields_nothing() {
    let p = lower("fn f(x : bool) -> () { if x { () } }");
    assert!(p.errors.is_empty());
    let f = &p.functions[0];
    assert!(f.body.ops.iter().any(|(_, op)| matches!(op, Op::If { results, .. } if results.is_empty())));
    assert!(matches!(&f.body.ops.last().unwrap().1, Op::Return { values } if values.is_empty()));
}

#[test]
fn borrow_in_function_body() {
    let p = lower("fn f(x : bool) -> () { newlft 'a; let y = &'a x; endlft 'a; () }");
    assert!(p.errors.is_empty());
    let f = &p.functions[0];
    assert!(matches!(f.body.ops[0], (0, Op::NewLft { result: 1 })));
    assert!(matches!(f.body.ops[1], (0, Op::Borrow { source: 0, lifetime: 1, result: 2 })));
    assert!(matches!(f.body.ops[2], (0, Op::End { lifetime: 1 })));
    assert!(matches!(&f.body.types[2], Ty::Ref(inner) if matches!(**inner, Ty::I1)));
    assert!(well_formed(f));
}

#[test]
fn measurement_is_rejected_and_others_still_lower() {
    let p = lower("fn f(x : qbit) -> bool { meas(x) } fn g() -> bool { true }");
    assert_eq!(function_names(&p), vec!["g".to_string()]);
    assert_eq!(error_names(&p), vec!["f".to_string()]);
    let e = &p.errors[0].1;
    assert!(matches!(e, LowerError::UnsupportedExpr(Rule::meas_expr, t) if t == "meas(x)"));
    assert_eq!(e.message(), "unsupported expression (meas_expr): meas(x)");
}

#[test]
fn unitary_and_lifted_are_rejected() {
    let p = lower("fn f(x : qbit) -> qbit { H(x) } fn g() -> qbit { [0]() }");
    assert!(p.functions.is_empty());
    assert!(matches!(&p.errors[0].1, LowerError::UnsupportedExpr(Rule::unitary_expr, _)));
    assert!(matches!(&p.errors[1].1, LowerError::UnsupportedExpr(Rule::lifted_expr, _)));
}

#[test]
fn call_of_unknown_function_is_an_undefined_variable() {
    let p = lower("fn f() -> bool { g() }");
    assert!(p.functions.is_empty());
    assert!(matches!(&p.errors[0].1, LowerError::UndefinedVariable(n) if n == "g"));
    assert_eq!(p.errors[0].1.message(), "undefined variable: g");
}

#[test]
fn use_of_unknown_variable_is_reported() {
    let p = lower("fn f() -> bool { y }");
    assert_eq!(p.errors[0].1.message(), "undefined variable: y");
}

#[test]
fn error_messages() {
    assert_eq!(LowerError::UnsupportedType("(a)".to_string()).message(), "unsupported type: (a)");
    assert_eq!(
        LowerError::UnsupportedStmt(Rule::borrow_stmt, "let y = &'a t;".to_string()).message(),
        "unsupported statement (borrow_stmt): let y = &'a t;"
    );
    assert_eq!(LowerError::LifetimeAlreadyOpen("'a".to_string()).message(), "lifetime already open: 'a");
    assert_eq!(LowerError::UnknownLifetime("'b".to_string()).message(), "unknown lifetime: 'b");
    assert_eq!(
        LowerError::UnsupportedLifetime(Rule::lifetime_static, "newlft 'static;".to_string()).message(),
        "unsupported lifetime (lifetime_static): newlft 'static;"
    );
    assert_eq!(LowerError::Mlir("bad".to_string()).message(), "MLIR error: bad");
}

#[test]
fn parse_error_line_and_column() {
    let e = ParseError { position: 5 };
    assert_eq!(e.line_col("ab\ncdef"), (2, 3));
    assert_eq!(ParseError { position: 0 }.line_col("xyz"), (1, 1));
}

#[test]
fn failed_parse_reports_a_position_in_the_text() {
    let source = "fn f() -> bool {";
    match QurtsParser::parse(Rule::program, source) {
        Ok(_) => panic!("an unclosed body must not parse"),
        Err(e) => assert!(e.position <= source.chars().count()),
    }
}

#[test]
fn formats_leaf_and_nested_nodes() {
    let source = "true";
    let pairs = QurtsParser::parse(Rule::lit_bool, source).unwrap();
    assert_eq!(format_parse_tree(&pairs, source), "lit_bool \"true\"\n");
    let pairs = QurtsParser::parse(Rule::expr, source).unwrap();
    assert_eq!(format_parse_tree(&pairs, source), "expr\n  lit_bool \"true\"\n");
}

#[test]
fn names_in_source_order() {
    assert_eq!(
        function_names_in_order("fn b() -> bool { true } fn a() -> bool { false }"),
        vec!["b".to_string(), "a".to_string()]
    );
}

#[test]
fn results_take_errors_by_name_and_texts_in_order() {
    let names = vec!["f".to_string(), "g".to_string(), "h".to_string()];
    let errors = vec![("g".to_string(), "undefined variable: y".to_string())];
    let texts = vec!["func.func @f".to_string(), "func.func @h".to_string()];
    let r = function_results(&names, &errors, &texts);
    assert_eq!(r.len(), 3);
    assert!(r[0].ok && r[0].name == "f" && r[0].content == "func.func @f");
    assert!(!r[1].ok && r[1].name == "g" && r[1].content == "undefined variable: y");
    assert!(r[2].ok && r[2].name == "h" && r[2].content == "func.func @h");
}

#[test]
fn text_stage_holds_its_text() {
    let st = text_stage("source", "Source", "fn f".to_string());
    assert_eq!(st.id, "source");
    assert_eq!(st.label, "Source");
    assert!(matches!(st.content, StageContent::Text { content } if content == "fn f"));
}

#[test]
fn lookup_after_define_and_scopes() {
    let mut env = Env::new();
    env.define("x".to_string(), LoweredValue::single(3));
    assert!(matches!(env.lookup(&"x".to_string()), Some(LoweredValue::Single(v)) if v.raw == 3));
    env.push_scope();
    env.define("x".to_string(), LoweredValue::single(7));
    assert!(matches!(env.lookup(&"x".to_string()), Some(LoweredValue::Single(v)) if v.raw == 7));
    env.pop_scope();
    assert!(matches!(env.lookup(&"x".to_string()), Some(LoweredValue::Single(v)) if v.raw == 3));
    assert!(env.lookup(&"y".to_string()).is_none());
}

#[test]
fn lifetimes_open_once_and_close_once() {
    let mut env = Env::new();
    assert!(env.open_lifetime("a".to_string(), 4));
    assert!(!env.open_lifetime("a".to_string(), 5));
    assert_eq!(env.lifetime(&"a".to_string()).map(|t| t.raw), Some(4));
    assert_eq!(env.close_lifetime(&"a".to_string()).map(|t| t.raw), Some(4));
    assert!(env.close_lifetime(&"a".to_string()).is_none());
    assert!(env.lifetime(&"a".to_string()).is_none());
}

#[test]
fn type_spellings() {
    assert_eq!(Ty::I1.mlir_text(), "i1");
    assert_eq!(Ty::Lifetime.mlir_text(), "!qduc.lt");
    assert_eq!(
        Ty::Unique(Box::new(Ty::Ref(Box::new(Ty::Qbit)))).mlir_text(),
        "!qauc.unique<!qduc.lt, !qauc.ref<!qduc.lt, !qauc.qbit>>"
    );
}

#[test]
fn shape_lengths_and_regrouping() {
    let shape = Shape::Tuple(vec![Shape::Single, Shape::Unit, Shape::Tuple(vec![Shape::Single, Shape::Single])]);
    assert_eq!(param_shape_len(&shape), 3);
    let values = vec![10, 11, 12, 13];
    let mut pos = 1;
    let v = shape.unflatten(&values, &mut pos);
    assert_eq!(pos, 4);
    assert_eq!(v.flatten(), vec![11, 12, 13]);
}

#[test]
fn lowered_functions_follow_the_names_without_errors() {
    let p = lower(
        "fn a() -> bool { true } fn b(x : qbit) -> bool { meas(x) } \
         fn c() -> bool { a() } fn d() -> bool { zz }",
    );
    assert_eq!(function_names(&p), vec!["a".to_string(), "c".to_string()]);
    assert_eq!(error_names(&p), vec!["b".to_string(), "d".to_string()]);
    let names = function_names_in_order("fn a() -> bool { true } fn b(x : qbit) -> bool { meas(x) } \
         fn c() -> bool { a() } fn d() -> bool { zz }");
    let errors: Vec<(String, String)> =
        p.errors.iter().map(|(n, e)| (n.clone(), e.message())).collect();
    let texts: Vec<String> = p.functions.iter().map(|f| f.name.clone()).collect();
    let r = function_results(&names, &errors, &texts);
    let oks: Vec<(String, String)> =
        r.iter().filter(|x| x.ok).map(|x| (x.name.clone(), x.content.clone())).collect();
    assert_eq!(oks, vec![("a".to_string(), "a".to_string()), ("c".to_string(), "c".to_string())]);
}

#[test]
fn signature_error_is_recorded_under_the_function_name() {
    let p = lower("fn f(x : &'a (bool, bool)) -> bool { true }");
    assert!(p.functions.is_empty());
    assert_eq!(error_names(&p), vec!["f".to_string()]);
    assert!(matches!(&p.errors[0].1, LowerError::UnsupportedType(_)));
}

/// Every `End` and every `Borrow` uses a token that an earlier `NewLft` gave
/// and no earlier `End` ended.
fn lifetimes_in_order(f: &LoweredFunction) -> bool {
    let ops = &f.body.ops;
    (0..ops.len()).all(|i| {
        let token = match &ops[i].1 {
            Op::End { lifetime } | Op::Borrow { lifetime, .. } => *lifetime,
            _ => return true,
        };
        let opened = ops[..i].iter().any(|(_, op)| matches!(op, Op::NewLft { result } if *result == token));
        let ended = ops[..i].iter().any(|(_, op)| matches!(op, Op::End { lifetime } if *lifetime == token));
        opened && !ended
    })
}

#[test]
fn lowered_lifetimes_are_in_order() {
    let p = lower(
        "fn f(x : bool) -> () { newlft 'a; newlft 'b; let y = &'b x; endlft 'a; endlft 'b; () } \
         fn g(x : bool) -> () { newlft 'a; if x { endlft 'a; () } else { () } }",
    );
    assert!(p.errors.is_empty());
    assert_eq!(p.functions.len(), 2);
    assert!(p.functions.iter().all(lifetimes_in_order));
    assert!(p.functions.iter().all(well_formed));
}

#[test]
fn lifetime_closed_twice_is_refused() {
    let p = lower("fn f() -> () { newlft 'a; endlft 'a; endlft 'a; () }");
    assert!(p.functions.is_empty());
    assert_eq!(p.errors[0].1.message(), "unknown lifetime: 'a");
}

#[test]
fn parsed_program_is_functions_then_end() {
    let source = "fn f() -> bool { true }  fn g() -> () { () }  ";
    let pairs = QurtsParser::parse(Rule::program, source).unwrap();
    assert_eq!(pairs.len(), 3);
    assert_eq!(pairs[0].rule, Rule::function);
    assert_eq!(pairs[1].rule, Rule::function);
    assert_eq!(pairs[2].rule, Rule::EOI);
    let n = source.chars().count();
    assert_eq!((pairs[2].start, pairs[2].end), (n, n));
    assert!(pairs[2].children.is_empty());
}

#[test]
fn shape_length_matches_lowered_types() {
    for source in ["bool", "()", "(bool, qbit)", "((bool, ()), (qbit, &'a bool))", "#'a qbit"] {
        let pairs = QurtsParser::parse(Rule::ty, source).unwrap();
        let shape = qurts::ty::shape_of_ty(&pairs[0]);
        let tys = qurts::ty::lower_ty(&pairs[0], source).unwrap();
        assert_eq!(param_shape_len(&shape), tys.len(), "{source}");
    }
}

#[test]
fn example_scripts_are_qurts_files_in_name_order() {
    let names: Vec<String> = ["b.qurts", "a.qurts", ".qurts", "x.txt", "c.qurts.bak", "Z.qurts", "a.b.qurts"]
        .iter()
        .map(|s| s.to_string())
        .collect();
    let r = qurts::examples::example_script_names(&names);
    assert_eq!(r, vec!["Z.qurts", "a.b.qurts", "a.qurts", "b.qurts"]);
}

#[test]
fn pop_restores_lookups_after_balanced_calls() {
    let mut env = Env::new();
    env.define("x".to_string(), LoweredValue::single(1));
    env.push_scope();
    env.define("x".to_string(), LoweredValue::single(2));
    assert!(env.open_lifetime("a".to_string(), 9));
    env.push_scope();
    env.define("y".to_string(), LoweredValue::single(3));
    env.pop_scope();
    env.pop_scope();
    assert!(matches!(env.lookup(&"x".to_string()), Some(LoweredValue::Single(v)) if v.raw == 1));
    assert!(env.lookup(&"y".to_string()).is_none());
    assert_eq!(env.lifetime(&"a".to_string()).map(|t| t.raw), Some(9));
}

#[test]
fn lifetime_closes_with_its_token_after_other_calls() {
    let mut env = Env::new();
    assert!(env.open_lifetime("a".to_string(), 4));
    assert!(env.open_lifetime("b".to_string(), 5));
    env.push_scope();
    assert!(!env.open_lifetime("a".to_string(), 6));
    assert_eq!(env.close_lifetime(&"b".to_string()).map(|t| t.raw), Some(5));
    env.pop_scope();
    assert_eq!(env.close_lifetime(&"a".to_string()).map(|t| t.raw), Some(4));
    assert!(env.close_lifetime(&"a".to_string()).is_none());
    assert!(env.open_lifetime("a".to_string(), 7));
}

#[test]
fn names_defined_in_a_block_are_gone_after_it() {
    let p = lower("fn f(x : bool) -> bool { let y : bool = { let x : bool = false; x }; x }");
    assert!(p.errors.is_empty());
    let f = &p.functions[0];
    assert!(matches!(&f.body.ops.last().unwrap().1, Op::Return { values } if *values == vec![0]));
    let q = lower("fn g(x : bool) -> bool { if x { let z : bool = true; z } else { false }; z }");
    assert!(matches!(&q.errors[0].1, LowerError::UndefinedVariable(n) if n == "z"));
}

#[test]
fn tuple_shape_lengths_add() {
    let a = vec![Shape::Single, Shape::Tuple(vec![Shape::Single, Shape::Unit])];
    let b = vec![Shape::Unit, Shape::Single, Shape::Single];
    let both = Shape::Tuple(vec![
        Shape::Single,
        Shape::Tuple(vec![Shape::Single, Shape::Unit]),
        Shape::Unit,
        Shape::Single,
        Shape::Single,
    ]);
    assert_eq!(param_shape_len(&both), param_shape_len(&Shape::Tuple(a)) + param_shape_len(&Shape::Tuple(b)));
    assert_eq!(param_shape_len(&Shape::Tuple(vec![Shape::Tuple(vec![Shape::Single])])), 1);
}
