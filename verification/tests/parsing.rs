use lambda_kernel::internal_representation::{RawAST, RawLambda, AST};
use lambda_kernel::parse::{parse, raw_parse, tokenize, ParseErr, Token};

fn sym(name: &str) -> AST {
    AST::Sym(name.to_string())
}

fn lam(param: &str, body: AST) -> AST {
    AST::Lam(param.to_string(), Box::new(body))
}

fn app(func: AST, arg: AST) -> AST {
    AST::App(Box::new(func), Box::new(arg))
}

#[test]
fn tokenize_splits_structural_characters() {
    let toks = tokenize("a{b".to_string());
    assert_eq!(
        toks,
        vec![
            Token::Sym("a".to_string()),
            Token::BeginLamArgs,
            Token::Sym("b".to_string()),
        ]
    );
}

#[test]
fn tokenize_handles_whitespace_runs() {
    let toks = tokenize("  alpha\n beta\t".to_string());
    assert_eq!(
        toks,
        vec![
            Token::Sym("alpha".to_string()),
            Token::Sym("beta".to_string()),
        ]
    );
}

#[test]
fn tokenize_of_empty_text_is_empty() {
    assert_eq!(tokenize(String::new()), vec![]);
}

#[test]
fn raw_parse_builds_lambda_node() {
    let toks = tokenize("{x~x}".to_string());
    let raw = raw_parse(toks).ok().unwrap();
    assert_eq!(
        raw,
        RawAST::Lam(RawLambda::Full(
            vec![RawAST::Sym("x".to_string())],
            vec![RawAST::Sym("x".to_string())],
        ))
    );
}

#[test]
fn push_appends_to_application() {
    let mut node = RawAST::App(vec![]);
    node.push(RawAST::Sym("a".to_string()));
    assert_eq!(node, RawAST::App(vec![RawAST::Sym("a".to_string())]));
}

#[test]
fn push_on_symbol_is_a_no_op() {
    let mut node = RawAST::Sym("a".to_string());
    node.push(RawAST::Sym("b".to_string()));
    assert_eq!(node, RawAST::Sym("a".to_string()));
}

#[test]
fn identity_elaborates() {
    assert_eq!(parse("{x~x}".to_string()), Ok(lam("x", sym("x"))));
}

#[test]
fn self_application_program_elaborates() {
    let expected = app(
        lam("x", app(sym("x"), sym("x"))),
        lam("y", sym("y")),
    );
    assert_eq!(parse("[{x~[x x]} {y~y}]".to_string()), Ok(expected));
}

#[test]
fn multi_parameter_lambda_desugars_to_curried_form() {
    let expected = lam("x", lam("y", app(sym("x"), sym("y"))));
    assert_eq!(parse("{x y~[x y]}".to_string()), Ok(expected));
}

#[test]
fn multi_term_application_left_folds() {
    let expected = lam(
        "x",
        lam(
            "y",
            lam("z", app(app(sym("x"), sym("y")), sym("z"))),
        ),
    );
    assert_eq!(parse("{x y z~[x y z]}".to_string()), Ok(expected));
}

#[test]
fn shadowing_parameter_is_permitted_and_outer_scope_restored() {
    let expected = lam(
        "x",
        app(lam("x", sym("x")), sym("x")),
    );
    assert_eq!(parse("{x~[{x~x} x]}".to_string()), Ok(expected));
}

#[test]
fn mismatched_bracket_kinds_fail_structurally() {
    assert_eq!(
        parse("{x~y]".to_string()),
        Err(ParseErr::IncorectBracketSeq)
    );
}

#[test]
fn bare_close_bracket_fails_structurally() {
    assert_eq!(parse("]".to_string()), Err(ParseErr::IncorectBracketSeq));
}

#[test]
fn empty_text_fails_structurally() {
    assert_eq!(parse("".to_string()), Err(ParseErr::IncorectBracketSeq));
}

#[test]
fn leading_symbol_is_rejected() {
    assert_eq!(
        parse("x".to_string()),
        Err(ParseErr::ProgramCantStartWithSymbol)
    );
}

#[test]
fn unbound_symbol_is_rejected() {
    assert_eq!(parse("{x~y}".to_string()), Err(ParseErr::UnexpectedSymbol));
}

#[test]
fn lambda_without_body_is_rejected() {
    assert_eq!(parse("{".to_string()), Err(ParseErr::NoLambdaBody));
}

#[test]
fn lambda_without_parameters_is_rejected() {
    assert_eq!(parse("{~x}".to_string()), Err(ParseErr::NoLambdaArgs));
}

#[test]
fn non_symbol_parameter_is_rejected() {
    assert_eq!(
        parse("{{x~x}~y}".to_string()),
        Err(ParseErr::OnlySymbolAllowedInLambdaArgs)
    );
}

#[test]
fn empty_application_is_rejected() {
    assert_eq!(
        parse("[]".to_string()),
        Err(ParseErr::NoArgsInApplication)
    );
}

#[test]
fn equivalent_renderings_parse_identically() {
    let compact = parse("{x~[x x]}".to_string());
    let spaced = parse(" { x ~ [ x x ] } ".to_string());
    assert!(compact.is_ok());
    assert_eq!(compact, spaced);
}

#[test]
fn get_top_elem_pops_even_on_mismatch() {
    let mut stack = vec![RawAST::App(vec![])];
    let r = lambda_kernel::parse::get_top_elem(&mut stack, &Token::EndLam);
    assert_eq!(r, Err(ParseErr::IncorectBracketSeq));
    assert!(stack.is_empty());
}

#[test]
fn get_top_elem_on_empty_stack_leaves_it_empty() {
    let mut stack: Vec<RawAST> = vec![];
    let r = lambda_kernel::parse::get_top_elem(&mut stack, &Token::EndApp);
    assert_eq!(r, Err(ParseErr::IncorectBracketSeq));
    assert!(stack.is_empty());
}
