use lambda_kernel::internal_representation::AST;
use lambda_kernel::reductions::{
    alpha_reduction, beta_reduction, gamma_reduction, name_change, variable_change,
};

fn sym(name: &str) -> AST {
    AST::Sym(name.to_string())
}

fn lam(param: &str, body: AST) -> AST {
    AST::Lam(param.to_string(), Box::new(body))
}

fn app(func: AST, arg: AST) -> AST {
    AST::App(Box::new(func), Box::new(arg))
}

#[test]
fn alpha_renames_parameter_and_occurrences() {
    let tree = lam("x", app(sym("x"), sym("z")));
    let renamed = alpha_reduction(&tree, &"w".to_string());
    assert_eq!(renamed, Some(lam("w", app(sym("w"), sym("z")))));
}

#[test]
fn alpha_respects_inner_shadowing() {
    let tree = lam("x", app(sym("x"), lam("x", sym("x"))));
    let renamed = alpha_reduction(&tree, &"w".to_string());
    assert_eq!(
        renamed,
        Some(lam("w", app(sym("w"), lam("x", sym("x")))))
    );
}

#[test]
fn alpha_refuses_name_bound_inside_body() {
    let tree = lam("x", lam("y", sym("x")));
    assert_eq!(alpha_reduction(&tree, &"y".to_string()), None);
}

#[test]
fn alpha_on_non_lambda_is_absent() {
    assert_eq!(alpha_reduction(&sym("x"), &"y".to_string()), None);
}

#[test]
fn beta_substitutes_self_application() {
    let outer = lam("x", app(sym("x"), sym("x")));
    let value = lam("y", sym("y"));
    let reduced = beta_reduction(&outer, &value);
    assert_eq!(
        reduced,
        Some(app(lam("y", sym("y")), lam("y", sym("y"))))
    );
}

#[test]
fn beta_skips_rebinding_lambda() {
    let tree = lam("x", app(sym("x"), lam("x", sym("x"))));
    let reduced = beta_reduction(&tree, &sym("v"));
    assert_eq!(reduced, Some(app(sym("v"), lam("x", sym("x")))));
}

#[test]
fn beta_on_non_lambda_is_absent() {
    assert_eq!(beta_reduction(&sym("x"), &sym("v")), None);
}

#[test]
fn eta_collapses_matching_shape() {
    let tree = lam("x", app(sym("f"), sym("x")));
    assert_eq!(gamma_reduction(&tree), Some(sym("f")));
}

#[test]
fn eta_rejects_non_matching_argument() {
    let tree = lam("x", app(sym("y"), sym("z")));
    assert_eq!(gamma_reduction(&tree), None);
}

#[test]
fn eta_rejects_non_application_body() {
    let tree = lam("x", sym("x"));
    assert_eq!(gamma_reduction(&tree), None);
}

#[test]
fn name_change_leaves_rebound_occurrences() {
    let tree = app(sym("x"), lam("x", sym("x")));
    let changed = name_change(&tree, &"x".to_string(), &"w".to_string());
    assert_eq!(changed, Some(app(sym("w"), lam("x", sym("x")))));
}

#[test]
fn variable_change_replaces_free_occurrences() {
    let tree = app(sym("x"), lam("y", sym("x")));
    let value = lam("z", sym("z"));
    let changed = variable_change(&tree, &"x".to_string(), &value);
    assert_eq!(
        changed,
        app(
            lam("z", sym("z")),
            lam("y", lam("z", sym("z"))),
        )
    );
}

#[test]
fn alpha_to_fresh_name_then_beta_matches_direct_beta() {
    let body = app(sym("x"), lam("y", sym("x")));
    let outer = lam("x", body);
    let value = lam("v", sym("v"));
    let direct = beta_reduction(&outer, &value).unwrap();
    let renamed = alpha_reduction(&outer, &"w".to_string()).unwrap();
    let via_rename = beta_reduction(&renamed, &value).unwrap();
    assert_eq!(via_rename, direct);
}
