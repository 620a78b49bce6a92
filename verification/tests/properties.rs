use std::collections::HashSet;

use smt_solver::Kind;
use smt_solver::Relation;
use smt_solver::Solver;
use smt_solver::Term;
use smt_solver::term::term_eq;

fn eq(l: Term, r: Term) -> Relation {
    Relation { left: l, right: r, kind: Kind::Equal }
}

fn neq(l: Term, r: Term) -> Relation {
    Relation { left: l, right: r, kind: Kind::NotEqual }
}

fn verdict(relations: Vec<Relation>) -> bool {
    let mut solver = Solver::from(relations);
    solver.check_satisfiable()
}

#[test]
fn test_empty_batch_is_satisfiable() {
    assert!(verdict(vec![]));
}

#[test]
fn test_reflexivity_observed() {
    // `x != x` contradicts reflexivity of the class relation.
    assert!(!verdict(vec![neq(Term::var("x"), Term::var("x"))]));
    // `x = x` asks nothing.
    assert!(verdict(vec![eq(Term::var("x"), Term::var("x"))]));
}

#[test]
fn test_symmetry_observed() {
    // `x = y` together with `y != x` contradicts symmetry.
    assert!(!verdict(vec![
        eq(Term::var("x"), Term::var("y")),
        neq(Term::var("y"), Term::var("x")),
    ]));
}

#[test]
fn test_transitivity_observed() {
    // `x = y`, `y = z`, `x != z` contradicts transitivity.
    assert!(!verdict(vec![
        eq(Term::var("x"), Term::var("y")),
        eq(Term::var("y"), Term::var("z")),
        neq(Term::var("x"), Term::var("z")),
    ]));
}

#[test]
fn test_duplicate_equality_is_idempotent() {
    // Merging a pair already in one class changes nothing: the verdict
    // matches the batch without the repeated literal.
    assert!(verdict(vec![
        eq(Term::var("x"), Term::var("y")),
        eq(Term::var("x"), Term::var("y")),
    ]));
    assert!(!verdict(vec![
        eq(Term::var("x"), Term::var("y")),
        eq(Term::var("x"), Term::var("y")),
        neq(Term::var("y"), Term::var("x")),
    ]));
}

#[test]
fn test_unrelated_equalities_never_split() {
    // More equalities only coarsen: a conflict stays a conflict.
    assert!(!verdict(vec![
        eq(Term::var("x"), Term::var("y")),
        eq(Term::var("a"), Term::var("b")),
        neq(Term::var("x"), Term::var("y")),
    ]));
}

#[test]
fn test_order_independence_of_scenarios() {
    // Each satisfiability scenario keeps its verdict when the input
    // equalities are permuted.
    let fxy = || Term::fun("f", vec![Term::var("x"), Term::var("y")]);
    let forward = vec![
        eq(fxy(), Term::var("x")),
        neq(Term::fun("f", vec![fxy(), Term::var("y")]), Term::var("x")),
    ];
    let backward = vec![
        neq(Term::fun("f", vec![fxy(), Term::var("y")]), Term::var("x")),
        eq(fxy(), Term::var("x")),
    ];
    assert_eq!(verdict(forward), verdict(backward));

    let ffx = || Term::fun("f", vec![Term::fun("f", vec![Term::var("x")])]);
    let fwd = vec![
        eq(ffx(), Term::var("x")),
        eq(Term::fun("f", vec![Term::var("x")]), Term::var("y")),
        neq(Term::var("x"), Term::var("y")),
    ];
    let bwd = vec![
        eq(Term::fun("f", vec![Term::var("x")]), Term::var("y")),
        eq(ffx(), Term::var("x")),
        neq(Term::var("x"), Term::var("y")),
    ];
    assert_eq!(verdict(fwd), verdict(bwd));
}

#[test]
fn test_registry_set_order_independent() {
    // The set of distinct subterms does not depend on relation order.
    let r1 = || eq(Term::fun("f", vec![Term::var("x")]), Term::var("y"));
    let r2 = || neq(Term::fun("g", vec![Term::var("y")]), Term::var("x"));
    let set_of = |rels: Vec<Relation>| {
        rels.iter()
            .flat_map(|r| r.subterms().terms)
            .map(|t| t.to_text())
            .collect::<HashSet<String>>()
    };
    assert_eq!(set_of(vec![r1(), r2()]), set_of(vec![r2(), r1()]));
}

#[test]
fn test_repeated_argument_arity() {
    // `f(x, x)` and `f(x, y)` agree only if `x` and `y` share a class.
    assert!(verdict(vec![neq(
        Term::fun("f", vec![Term::var("x"), Term::var("x")]),
        Term::fun("f", vec![Term::var("x"), Term::var("y")]),
    )]));
    assert!(!verdict(vec![
        eq(Term::var("x"), Term::var("y")),
        neq(
            Term::fun("f", vec![Term::var("x"), Term::var("x")]),
            Term::fun("f", vec![Term::var("x"), Term::var("y")]),
        ),
    ]));
}

#[test]
fn test_arity_distinguishes() {
    // Same symbol, different arity: never congruent.
    assert!(verdict(vec![neq(
        Term::fun("f", vec![Term::var("x")]),
        Term::fun("f", vec![Term::var("x"), Term::var("x")]),
    )]));
}

#[test]
fn test_propagation_through_class_members() {
    // `a = c` and `c = b` put `a` and `b` in one class, so `f(a)` and
    // `f(b)` become congruent and the closure joins them; the
    // disequality then fails even though neither equality names `f`.
    assert!(!verdict(vec![
        eq(Term::var("a"), Term::var("c")),
        eq(Term::var("c"), Term::var("b")),
        neq(
            Term::fun("f", vec![Term::var("a")]),
            Term::fun("f", vec![Term::var("b")]),
        ),
    ]));
}

#[test]
fn test_propagation_order_independent() {
    // The verdict does not depend on which equality arrives last, even
    // when the congruence of `f(a,c)` and `f(b,d)` needs class-level
    // parent pairing to be found.
    let fac = || Term::fun("f", vec![Term::var("a"), Term::var("c")]);
    let fbd = || Term::fun("f", vec![Term::var("b"), Term::var("d")]);
    let order_a = vec![
        eq(Term::var("a"), Term::var("x")),
        eq(Term::var("x"), Term::var("b")),
        eq(Term::var("c"), Term::var("d")),
        neq(fac(), fbd()),
    ];
    let order_b = vec![
        eq(Term::var("c"), Term::var("d")),
        eq(Term::var("a"), Term::var("x")),
        eq(Term::var("x"), Term::var("b")),
        neq(fac(), fbd()),
    ];
    assert!(!verdict(order_a));
    assert!(!verdict(order_b));
}

#[test]
fn test_rendering() {
    assert_eq!(Term::var("x").to_text(), "x");
    assert_eq!(
        Term::fun("f", vec![Term::var("x"), Term::fun("g", vec![Term::var("y")])]).to_text(),
        "f(x,g(y))"
    );
    assert_eq!(Term::fun("h", vec![Term::var("a")]).to_text(), "h(a)");
}

#[test]
fn test_structural_equality() {
    let a = Term::fun("f", vec![Term::var("x"), Term::var("y")]);
    let b = Term::fun("f", vec![Term::var("x"), Term::var("y")]);
    let c = Term::fun("f", vec![Term::var("y"), Term::var("x")]);
    assert!(term_eq(&a, &b));
    assert!(!term_eq(&a, &c));
    assert!(!term_eq(&a, &Term::var("f")));
}

#[test]
fn test_no_congruent_pairs_without_applications() {
    let mut solver = Solver::from(vec![eq(Term::var("x"), Term::var("y"))]);
    let _ = solver.check_satisfiable();
    assert!(solver.find_all_congruent_terms().is_empty());
}

#[test]
fn test_congruent_pair_of_shared_argument() {
    // `x = y` makes `f(x)` and `f(y)` congruent, and the closure joins
    // them, so `f(x) != f(y)` cannot be satisfied.
    assert!(!verdict(vec![
        eq(Term::var("x"), Term::var("y")),
        neq(
            Term::fun("f", vec![Term::var("x")]),
            Term::fun("f", vec![Term::var("y")]),
        ),
    ]));
}
