use qurts::block::lower_block_body;
use qurts::env::Env;
use qurts::error::LowerError;
use qurts::expr::lower_expr;
use qurts::grammar::Rule;
use qurts::ir::{Body, Op, Ty};
use qurts::parser::QurtsParser;
use qurts::program::Lowerer;
use qurts::signature::FunctionSignature;
use qurts::ty::{lower_ty, shape_of_ty};
use qurts::value::{LoweredValue, Shape};

fn lower_top_block(source: &str) -> (Result<Option<LoweredValue>, LowerError>, Body) {
    let signatures: Vec<(String, FunctionSignature)> = Vec::new();
    let lowerer = Lowerer { input: source, signatures: &signatures };
    let mut body = Body::new(&Vec::new());
    let mut env = Env::new();
    let pairs = QurtsParser::parse(Rule::block, source).unwrap();
    let result = lower_block_body(&lowerer, &mut env, &mut body, 0, &pairs[0]);
    (result, body)
}

fn lower_top_expr(source: &str) -> (Result<LoweredValue, LowerError>, Body) {
    let signatures: Vec<(String, FunctionSignature)> = Vec::new();
    let lowerer = Lowerer { input: source, signatures: &signatures };
    let mut body = Body::new(&Vec::new());
    let mut env = Env::new();
    let pairs = QurtsParser::parse(Rule::expr, source).unwrap();
    let result = lower_expr(&lowerer, &mut env, &mut body, 0, &pairs[0]);
    (result, body)
}

fn has_op(body: &Body, pred: impl Fn(&Op) -> bool) -> bool {
    body.ops.iter().any(|(_, op)| pred(op))
}

fn ty_texts(source: &str) -> Result<Vec<String>, LowerError> {
    let pairs = QurtsParser::parse(Rule::ty, source).unwrap();
    lower_ty(&pairs[0], source).map(|tys| tys.iter().map(|t| t.mlir_text()).collect())
}

#[test]
fn lowers_newlft_endlft() {
    let (result, body) = lower_top_block("{ newlft 'a; endlft 'a; }");
    result.unwrap();
    assert!(has_op(&body, |op| matches!(op, Op::NewLft { .. })));
    assert!(has_op(&body, |op| matches!(op, Op::End { .. })));
}

#[test]
fn lowers_crossing_lifetimes() {
    let (result, body) = lower_top_block("{ newlft 'a; newlft 'b; endlft 'a; endlft 'b; }");
    result.unwrap();
    let ends: Vec<usize> = body
        .ops
        .iter()
        .filter_map(|(_, op)| match op {
            Op::End { lifetime } => Some(*lifetime),
            _ => None,
        })
        .collect();
    assert_eq!(ends, vec![0, 1]);
}

#[test]
fn rejects_double_open_lifetime() {
    let (result, _body) = lower_top_block("{ newlft 'a; newlft 'a; }");
    assert!(matches!(result, Err(LowerError::LifetimeAlreadyOpen(name)) if name == "'a"));
}

#[test]
fn rejects_endlft_unknown_lifetime() {
    let (result, _body) = lower_top_block("{ endlft 'a; }");
    assert!(matches!(result, Err(LowerError::UnknownLifetime(name)) if name == "'a"));
}

#[test]
fn rejects_newlft_static() {
    let (result, _body) = lower_top_block("{ newlft 'static; }");
    assert!(matches!(result, Err(LowerError::UnsupportedLifetime(Rule::lifetime_static, _))));
}

#[test]
fn lowers_borrow_stmt() {
    let (result, body) =
        lower_top_block("{ let x : bool = true; newlft 'a; let y = &'a x; endlft 'a; }");
    result.unwrap();
    assert!(has_op(&body, |op| matches!(op, Op::Borrow { .. })));
}

#[test]
fn rejects_borrow_of_undefined_variable() {
    let (result, _body) = lower_top_block("{ newlft 'a; let y = &'a x; endlft 'a; }");
    assert!(matches!(result, Err(LowerError::UndefinedVariable(name)) if name == "x"));
}

#[test]
fn rejects_borrow_with_unknown_lifetime() {
    let (result, _body) = lower_top_block("{ let x : bool = true; let y = &'a x; }");
    assert!(matches!(result, Err(LowerError::UnknownLifetime(name)) if name == "'a"));
}

#[test]
fn rejects_borrow_of_tuple() {
    let (result, _body) = lower_top_block(
        "{ let x : (bool, bool) = (true, false); newlft 'a; let y = &'a x; endlft 'a; }",
    );
    assert!(matches!(result, Err(LowerError::UnsupportedStmt(Rule::borrow_stmt, _))));
}

#[test]
fn lowers_bool_literal() {
    let (value, _body) = lower_top_expr("true");
    assert!(value.unwrap().as_single().is_some());
}

#[test]
fn lowers_tuple() {
    let (value, _body) = lower_top_expr("(true, false)");
    match value.unwrap() {
        LoweredValue::Tuple(values) => assert_eq!(values.len(), 2),
        LoweredValue::Single(_) => panic!("expected a tuple"),
    }
}

#[test]
fn lowers_if_expr() {
    let (value, body) = lower_top_expr("if true { true } else { false }");
    assert!(value.unwrap().as_single().is_some());
    assert!(has_op(&body, |op| matches!(op, Op::If { .. })));
}

#[test]
fn rejects_unitary_expr() {
    let (result, _body) = lower_top_expr("H(x)");
    assert!(matches!(result, Err(LowerError::UnsupportedExpr(Rule::unitary_expr, _))));
}

#[test]
fn maps_bool_to_i1() {
    assert_eq!(ty_texts("bool").unwrap(), vec!["i1".to_string()]);
}

#[test]
fn maps_unit_to_zero_types() {
    assert_eq!(ty_texts("()").unwrap(), Vec::<String>::new());
}

#[test]
fn maps_qbit_to_qauc_qbit() {
    assert_eq!(ty_texts("qbit").unwrap(), vec!["!qauc.qbit".to_string()]);
}

#[test]
fn maps_product_to_two_flattened_types() {
    assert_eq!(ty_texts("(bool, qbit)").unwrap().len(), 2);
    let pairs = QurtsParser::parse(Rule::ty, "(bool, qbit)").unwrap();
    assert!(matches!(shape_of_ty(&pairs[0]), Shape::Tuple(shapes) if shapes.len() == 2));
}

#[test]
fn maps_ref_and_unique_to_qauc_types() {
    assert_eq!(ty_texts("&'a bool").unwrap(), vec!["!qauc.ref<!qduc.lt, i1>".to_string()]);
    assert_eq!(
        ty_texts("#'a qbit").unwrap(),
        vec!["!qauc.unique<!qduc.lt, !qauc.qbit>".to_string()]
    );
}

#[test]
fn rejects_reference_to_tuple() {
    assert!(ty_texts("&'a (bool, qbit)").is_err());
}

#[test]
fn nested_ref_keeps_inner_type() {
    let pairs = QurtsParser::parse(Rule::ty, "&'a #'b qbit").unwrap();
    let tys = lower_ty(&pairs[0], "&'a #'b qbit").unwrap();
    assert_eq!(tys.len(), 1);
    assert!(matches!(&tys[0], Ty::Ref(inner) if matches!(**inner, Ty::Unique(_))));
}

fn lower_one_stmt(lowerer: &Lowerer, env: &mut Env, body: &mut Body, source: &str) -> Result<(), LowerError> {
    let pairs = QurtsParser::parse(Rule::stmt, source).unwrap();
    qurts::block::lower_stmt(lowerer, env, body, 0, &pairs[0])
}

#[test]
fn double_open_keeps_first_token() {
    let source = "newlft 'a;";
    let signatures: Vec<(String, FunctionSignature)> = Vec::new();
    let lowerer = Lowerer { input: source, signatures: &signatures };
    let mut body = Body::new(&Vec::new());
    let mut env = Env::new();
    lower_one_stmt(&lowerer, &mut env, &mut body, source).unwrap();
    let first = env.lifetime(&"a".to_string()).unwrap().raw;
    let second = lower_one_stmt(&lowerer, &mut env, &mut body, source);
    assert!(matches!(second, Err(LowerError::LifetimeAlreadyOpen(n)) if n == "'a"));
    assert_eq!(env.lifetime(&"a".to_string()).unwrap().raw, first);
    assert_eq!(body.ops.len(), 2);
}

#[test]
fn failed_borrow_changes_nothing() {
    let source = "let y = &'a x;";
    let signatures: Vec<(String, FunctionSignature)> = Vec::new();
    let lowerer = Lowerer { input: source, signatures: &signatures };
    let mut body = Body::new(&Vec::new());
    let mut env = Env::new();
    let r = lower_one_stmt(&lowerer, &mut env, &mut body, source);
    assert!(matches!(r, Err(LowerError::UnknownLifetime(n)) if n == "'a"));
    assert!(body.ops.is_empty() && body.types.is_empty());
    assert!(env.lookup(&"y".to_string()).is_none());
}
