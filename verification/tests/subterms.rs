use std::collections::HashSet;

use smt_solver::Kind;
use smt_solver::Relation;
use smt_solver::Term;

/// The distinct subterms of a relation, by canonical rendering.
fn subterm_set(relation: Relation, expected: Vec<&str>) {
    let subterms_set = relation
        .subterms()
        .terms
        .iter()
        .map(|term| term.to_text())
        .collect::<HashSet<_>>();
    let expected_set = expected
        .into_iter()
        .map(|s| s.to_string())
        .collect::<HashSet<_>>();
    assert_eq!(subterms_set, expected_set);
}

/// The full depth-first traversal of a relation, in order, repeated
/// occurrences included.
fn subterm_order(relation: Relation, expected: Vec<&str>) {
    let subterms = relation
        .subterms()
        .terms
        .iter()
        .map(|term| term.to_text())
        .collect::<Vec<String>>();
    assert_eq!(&subterms[..], &expected[..]);
}

#[test]
fn subterms_test_subterms_simple_vars() {
    // `x = y`
    subterm_set(
        Relation {
            left: Term::var("x"),
            right: Term::var("y"),
            kind: Kind::Equal,
        },
        vec!["x", "y"],
    );
}

#[test]
fn subterms_test_subterms_simple_funcs() {
    // `f(x) = g(x)`
    subterm_set(
        Relation {
            left: Term::fun("f", vec![Term::var("x")]),
            right: Term::fun("g", vec![Term::var("x")]),
            kind: Kind::Equal,
        },
        vec!["x", "f(x)", "g(x)"],
    );
}

#[test]
fn subterms_test_subterms_1() {
    // `f(x, y) = g(x)`
    subterm_set(
        Relation {
            left: Term::fun("f", vec![Term::var("x"), Term::var("y")]),
            right: Term::fun("g", vec![Term::var("x")]),
            kind: Kind::Equal,
        },
        vec!["x", "y", "f(x,y)", "g(x)"],
    );
}

#[test]
fn subterms_test_subterms_2() {
    // `u(v(a), t(b, a)) != a`
    subterm_set(
        Relation {
            left: Term::fun(
                "u",
                vec![
                    Term::fun("v", vec![Term::var("a")]),
                    Term::fun("t", vec![Term::var("b"), Term::var("a")]),
                ],
            ),
            right: Term::var("a"),
            kind: Kind::NotEqual,
        },
        vec!["a", "b", "v(a)", "t(b,a)", "u(v(a),t(b,a))"],
    );
}

#[test]
fn mod_test_subterms_simple_vars() {
    // `x = y`
    subterm_order(
        Relation {
            left: Term::var("x"),
            right: Term::var("y"),
            kind: Kind::Equal,
        },
        vec!["x", "y"],
    );
}

#[test]
fn mod_test_subterms_simple_funcs() {
    // `f(x) = g(x)`
    subterm_order(
        Relation {
            left: Term::fun("f", vec![Term::var("x")]),
            right: Term::fun("g", vec![Term::var("x")]),
            kind: Kind::Equal,
        },
        vec!["f(x)", "x", "g(x)", "x"],
    );
}

#[test]
fn mod_test_subterms_1() {
    // `f(x, y) = g(x)`
    subterm_order(
        Relation {
            left: Term::fun("f", vec![Term::var("x"), Term::var("y")]),
            right: Term::fun("g", vec![Term::var("x")]),
            kind: Kind::Equal,
        },
        vec!["f(x,y)", "y", "x", "g(x)", "x"],
    );
}

#[test]
fn mod_test_subterms_2() {
    // `u(v(a), t(b, a)) != a`
    subterm_order(
        Relation {
            left: Term::fun(
                "u",
                vec![
                    Term::fun("v", vec![Term::var("a")]),
                    Term::fun("t", vec![Term::var("b"), Term::var("a")]),
                ],
            ),
            right: Term::var("a"),
            kind: Kind::NotEqual,
        },
        vec!["u(v(a),t(b,a))", "t(b,a)", "a", "b", "v(a)", "a", "a"],
    );
}
