use lambda_terms::eval::INDEX_LIMIT;
use lambda_terms::eval::MAX_OPS;
use lambda_terms::lambda::Term;

fn var(x: usize) -> Term {
    Term::make_var(x)
}

fn lam(label: &str, body: Term) -> Term {
    Term::make_abs(body, label)
}

fn app(fun: Term, arg: Term) -> Term {
    Term::make_app(fun, arg)
}

fn identity(label: &str) -> Term {
    lam(label, var(0))
}

/// `(λx. x x) (λx. x x)`
fn omega() -> Term {
    let half = lam("x", app(var(0), var(0)));
    app(half.clone(), half)
}

/// The Church numeral `n`.
fn church(n: usize) -> Term {
    let mut body = var(0);
    for _ in 0..n {
        body = app(var(1), body);
    }
    lam("f", lam("x", body))
}

/// `λm. λn. λf. λx. m f (n f x)`
fn plus() -> Term {
    lam(
        "m",
        lam(
            "n",
            lam(
                "f",
                lam(
                    "x",
                    app(app(var(3), var(1)), app(app(var(2), var(1)), var(0))),
                ),
            ),
        ),
    )
}

/// A balanced tree of applications over `leaves` variables: `2 * leaves - 1` nodes.
fn balanced(leaves: usize) -> Term {
    if leaves == 1 {
        var(0)
    } else {
        let left = leaves / 2;
        app(balanced(left), balanced(leaves - left))
    }
}

fn repeat(step: fn(&Term) -> Option<Term>, start: &Term) -> Term {
    let mut t = start.clone();
    while let Some(next) = step(&t) {
        t = next;
    }
    t
}

/// The term without its labels, as text.
fn shape(t: &Term) -> String {
    t.pretty_print(None)
}

#[test]
fn shift_raises_free_indices_only() {
    // λ. 0 1 2 with cutoff 1: under the binder the cutoff is 2
    let t = lam("x", app(app(var(0), var(1)), var(2)));
    assert_eq!(t.shift(3, 1), lam("x", app(app(var(0), var(1)), var(5))));
    assert_eq!(t.shift(3, 0), lam("x", app(app(var(0), var(4)), var(5))));
}

#[test]
fn shift_lowers_by_negative_amounts() {
    let t = app(var(4), lam("x", var(7)));
    assert_eq!(t.shift(-2, 3), app(var(2), lam("x", var(5))));
    assert_eq!(var(2).shift(-2, 0), var(0));
    assert_eq!(var(1).shift(-5, 2), var(1));
}

#[test]
fn shift_up_then_down_is_identity() {
    let t = app(lam("x", app(var(0), var(3))), app(var(0), lam("y", lam("z", var(2)))));
    assert_eq!(t.shift(1, 0).shift(-1, 0), t);
    assert_eq!(t.shift(1, 0), app(lam("x", app(var(0), var(4))), app(var(1), lam("y", lam("z", var(3))))));
}

#[test]
fn substitute_replaces_the_target_only() {
    let t = app(var(0), app(var(1), var(2)));
    assert_eq!(t.substitute(1, &var(9)), app(var(0), app(var(9), var(2))));
}

#[test]
fn substitute_lifts_the_replacement_under_binders() {
    // in λ. λ. 2 the index 2 is the variable 0 of the outside
    let t = lam("a", lam("b", app(var(2), var(0))));
    let s = app(var(0), var(5));
    assert_eq!(
        t.substitute(0, &s),
        lam("a", lam("b", app(app(var(2), var(7)), var(0))))
    );
}

#[test]
fn substitute_keeps_the_labels() {
    let t = lam("first", lam("second", var(2)));
    assert_eq!(t.substitute(0, &identity("inner")), lam("first", lam("second", identity("inner"))));
}

#[test]
fn beta_on_identity_applied_to_free_variable() {
    // (λ. 0) y with y the free variable 0 gives y unchanged
    let t = app(identity("x"), var(0));
    assert_eq!(t.perform_beta_reduction(), Some(var(0)));
}

#[test]
fn beta_lowers_the_other_free_indices_of_the_body() {
    // (λ. 0 1 2) 7: 0 gives way to 7, 1 and 2 drop to 0 and 1
    let t = app(lam("x", app(app(var(0), var(1)), var(2))), var(7));
    assert_eq!(t.perform_beta_reduction(), Some(app(app(var(7), var(0)), var(1))));
}

#[test]
fn beta_keeps_the_argument_in_its_context_under_binders() {
    // (λ. λ. 1 0 2) (0 3): under the inner binder the argument is 1 4
    let t = app(lam("x", lam("y", app(app(var(1), var(0)), var(2)))), app(var(0), var(3)));
    assert_eq!(
        t.perform_beta_reduction(),
        Some(lam("y", app(app(app(var(1), var(4)), var(0)), var(1))))
    );
}

#[test]
fn beta_is_not_applicable_to_other_shapes() {
    assert_eq!(var(3).perform_beta_reduction(), None);
    assert_eq!(identity("x").perform_beta_reduction(), None);
    assert_eq!(app(var(0), identity("x")).perform_beta_reduction(), None);
    assert_eq!(app(app(identity("x"), var(0)), var(1)).perform_beta_reduction(), None);
}

#[test]
fn redex_predicate() {
    assert!(app(identity("x"), var(0)).is_beta_redex());
    assert!(!app(var(0), identity("x")).is_beta_redex());
    assert!(!identity("x").is_beta_redex());
    assert!(!var(0).is_beta_redex());
    assert!(identity("x").is_abs());
    assert!(!var(0).is_abs());
    assert!(!app(var(0), var(0)).is_abs());
}

#[test]
fn constructors_build_the_variants() {
    assert_eq!(Term::make_var(4), Term::Var(4));
    assert_eq!(
        Term::make_abs(Term::Var(0), "x"),
        Term::Abs(Box::new(Term::Var(0)), "x".to_string())
    );
    assert_eq!(
        Term::make_app(Term::Var(1), Term::Var(2)),
        Term::App(Box::new(Term::Var(1)), Box::new(Term::Var(2)))
    );
    assert_eq!(Term::remake_app_lhs(var(1), &Box::new(var(2))), app(var(1), var(2)));
    assert_eq!(Term::remake_app_rhs(&Box::new(var(1)), var(2)), app(var(1), var(2)));
}

#[test]
fn outermost_contracts_the_whole_term_first() {
    // (λ. 0) ((λ. 0) z): the outer redex wins
    let inner = app(identity("y"), var(0));
    let t = app(identity("x"), inner.clone());
    assert_eq!(t.outermost_reduction(), Some(inner));
}

#[test]
fn outermost_tries_function_side_before_argument_side() {
    let left = app(identity("a"), var(1));
    let right = app(identity("b"), var(2));
    let t = app(app(var(0), left), right.clone());
    assert_eq!(t.outermost_reduction(), Some(app(app(var(0), var(1)), right)));
    let t = app(var(0), app(identity("b"), var(2)));
    assert_eq!(t.outermost_reduction(), Some(app(var(0), var(2))));
}

#[test]
fn outermost_descends_into_abstractions() {
    let t = lam("x", app(identity("y"), var(0)));
    assert_eq!(t.outermost_reduction(), Some(lam("x", var(0))));
}

#[test]
fn outermost_reports_no_redex() {
    assert_eq!(var(0).outermost_reduction(), None);
    assert_eq!(lam("x", app(var(0), var(1))).outermost_reduction(), None);
    assert_eq!(app(var(0), identity("x")).outermost_reduction(), None);
}

#[test]
fn outermost_discards_a_looping_argument() {
    // (λ. y) Ω: normal order never looks into the argument
    let t = app(lam("x", var(1)), omega());
    assert_eq!(t.outermost_reduction(), Some(var(0)));
}

#[test]
fn innermost_reduces_inside_before_the_term_itself() {
    // (λ. 0) ((λ. 0) z): the inner redex goes first
    let t = app(identity("x"), app(identity("y"), var(0)));
    assert_eq!(t.innermost_reduction(), Some(app(identity("x"), var(0))));
}

#[test]
fn innermost_tries_function_side_first() {
    let f = lam("x", app(identity("i"), var(0)));
    let a = app(identity("j"), var(3));
    let t = app(f, a.clone());
    assert_eq!(t.innermost_reduction(), Some(app(lam("x", var(0)), a)));
}

#[test]
fn innermost_contracts_the_term_last() {
    let t = app(identity("x"), var(5));
    assert_eq!(t.innermost_reduction(), Some(var(5)));
}

#[test]
fn innermost_reports_no_redex() {
    assert_eq!(var(0).innermost_reduction(), None);
    assert_eq!(lam("x", app(var(0), var(1))).innermost_reduction(), None);
}

#[test]
fn innermost_loops_inside_an_unused_argument() {
    // (λ. y) Ω: applicative order reduces Ω, which gives Ω again
    let t = app(lam("x", var(1)), omega());
    let once = t.innermost_reduction().unwrap();
    assert_eq!(shape(&once), shape(&t));
}

#[test]
fn specific_reduction_selects_in_pre_order() {
    // (λx. x) ((λy. y) z)
    let t = app(identity("x"), app(identity("y"), var(0)));
    assert_eq!(t.specific_reduction(0), Some(app(identity("y"), var(0))));
    assert_eq!(t.specific_reduction(1), Some(app(identity("x"), var(0))));
    assert_eq!(t.specific_reduction(2), None);
    assert_eq!(t.specific_reduction(usize::MAX), None);
}

#[test]
fn specific_reduction_counts_function_side_before_argument_side() {
    let r = |n: usize| app(identity("i"), var(n));
    // redexes in pre-order: r(1) inside the abstraction, r(2), r(3)
    let t = app(app(lam("x", r(1)), r(2)), r(3));
    assert_eq!(t.beta_redexes(), 4);
    // 0: (λx. r1) r2 itself
    assert_eq!(t.specific_reduction(0), Some(app(app(identity("i"), var(0)), r(3))));
    assert_eq!(t.specific_reduction(1), Some(app(app(lam("x", var(1)), r(2)), r(3))));
    assert_eq!(t.specific_reduction(2), Some(app(app(lam("x", r(1)), var(2)), r(3))));
    assert_eq!(t.specific_reduction(3), Some(app(app(lam("x", r(1)), r(2)), var(3))));
    assert_eq!(t.specific_reduction(4), None);
}

#[test]
fn specific_reduction_succeeds_exactly_below_the_redex_count() {
    let t = app(app(plus(), church(2)), app(identity("i"), church(1)));
    let k = t.beta_redexes() as usize;
    assert_eq!(k, 2);
    for i in 0..k {
        assert!(t.specific_reduction(i).is_some());
    }
    for i in k..k + 3 {
        assert!(t.specific_reduction(i).is_none());
    }
}

#[test]
fn specific_reduction_search_reports_what_is_left() {
    let t = app(var(0), app(identity("y"), var(0)));
    assert_eq!(t.specific_reduction_from(0), (Some(app(var(0), var(0))), 0));
    assert_eq!(t.specific_reduction_from(1), (None, 0));
    assert_eq!(t.specific_reduction_from(5), (None, 4));
}

#[test]
fn normalise_reaches_the_normal_form() {
    let t = app(identity("x"), app(identity("y"), var(0)));
    assert_eq!(t.normalise(), Some(var(0)));
    let two_plus_three = app(app(plus(), church(2)), church(3));
    assert_eq!(shape(&two_plus_three.normalise().unwrap()), shape(&church(5)));
}

#[test]
fn normalise_leaves_normal_terms_alone() {
    let t = lam("x", app(var(0), lam("y", app(var(1), var(0)))));
    assert_eq!(t.normalise(), Some(t.clone()));
    assert_eq!(var(7).normalise(), Some(var(7)));
}

#[test]
fn normalise_is_idempotent() {
    let t = app(app(plus(), church(1)), church(2));
    let once = t.normalise().unwrap();
    assert_eq!(once.normalise(), Some(once.clone()));
}

#[test]
fn normalise_gives_up_on_omega() {
    assert_eq!(omega().normalise(), None);
    assert_eq!(lam("x", app(var(0), omega())).normalise(), None);
}

#[test]
fn normalise_retries_before_it_looks_at_the_argument() {
    // (K y) Ω: the function side normalises to an abstraction, the
    // application of it is contracted, and Ω is never normalised
    let k = lam("a", lam("b", var(1)));
    let t = app(app(k, var(0)), omega());
    assert_eq!(t.normalise(), Some(var(0)));
}

#[test]
fn normalise_normalises_the_argument_of_a_stuck_application() {
    let t = app(var(0), app(identity("x"), var(1)));
    assert_eq!(t.normalise(), Some(app(var(0), var(1))));
}

#[test]
fn strategies_agree_with_normalise() {
    let terms = vec![
        app(app(plus(), church(2)), church(2)),
        app(identity("x"), app(identity("y"), var(0))),
        app(lam("x", app(var(0), var(0))), identity("i")),
        app(app(lam("a", lam("b", var(1))), var(0)), app(identity("z"), var(2))),
        lam("x", app(app(church(2), identity("i")), var(0))),
    ];
    for t in terms {
        let normal = t.normalise().unwrap();
        assert_eq!(repeat(Term::outermost_reduction, &t), normal);
        assert_eq!(repeat(Term::innermost_reduction, &t), normal);
    }
}

#[test]
fn budget_counts_every_node_visited() {
    // a variable is one visit
    assert_eq!(var(3).normalise_with_budget(1), Some((var(3), 0)));
    assert_eq!(var(3).normalise_with_budget(0), None);
    // λ. 0 1: abstraction, application, two variables
    let t = lam("x", app(var(0), var(1)));
    assert_eq!(t.normalise_with_budget(4), Some((t.clone(), 0)));
    assert_eq!(t.normalise_with_budget(9), Some((t.clone(), 5)));
    assert_eq!(t.normalise_with_budget(3), None);
}

#[test]
fn budget_counts_the_redex_and_its_contractum() {
    // (λ. 0) y: one visit for the redex, one for y
    let t = app(identity("x"), var(0));
    assert_eq!(t.normalise_with_budget(2), Some((var(0), 0)));
    assert_eq!(t.normalise_with_budget(1), None);
}

#[test]
fn budget_counts_the_retry_after_the_function_side() {
    // ((λ. 0) (λ. 0)) y: the application, its function side (a redex, then
    // λ. 0 with its body), the retry (a redex), and y
    let t = app(app(identity("a"), identity("b")), var(0));
    assert_eq!(t.normalise_with_budget(6), Some((var(0), 0)));
    assert_eq!(t.normalise_with_budget(5), None);
}

#[test]
fn budget_boundary_of_normalise() {
    assert_eq!(MAX_OPS, 10000);
    // 9999 nodes under one abstraction: 10000 visits
    let fits = lam("x", balanced(5000));
    assert_eq!(fits.subterms(), 10000);
    assert_eq!(fits.normalise(), Some(fits.clone()));
    assert_eq!(fits.normalise_with_budget(MAX_OPS), Some((fits.clone(), 0)));
    // one node more
    let over = lam("y", fits);
    assert_eq!(over.subterms(), 10001);
    assert_eq!(over.normalise(), None);
}

#[test]
fn range_check() {
    assert_eq!(INDEX_LIMIT, usize::MAX / 2);
    assert!(var(INDEX_LIMIT - 1).in_range());
    assert!(!var(INDEX_LIMIT).in_range());
    assert!(omega().in_range());
    let t = app(var(0), lam("x", var(3)));
    assert!(t.bounded(4, 2));
    assert!(!t.bounded(3, 2));
    assert!(!t.bounded(4, 1));
}

#[test]
fn normalise_gives_up_on_a_redex_out_of_range() {
    let t = app(identity("x"), var(usize::MAX));
    assert!(!t.in_range());
    assert_eq!(t.normalise(), None);
    // out of range but normal: nothing is contracted
    assert_eq!(var(usize::MAX).normalise(), Some(var(usize::MAX)));
}

#[test]
fn redexes_in_range_looks_at_redexes_only() {
    // no redex: nothing can go out of range
    assert!(var(usize::MAX).redexes_in_range());
    assert!(app(var(usize::MAX), lam("x", var(0))).redexes_in_range());
    assert_eq!(var(usize::MAX).outermost_reduction(), None);
    assert_eq!(var(usize::MAX).innermost_reduction(), None);
    assert_eq!(var(usize::MAX).specific_reduction(0), None);
    assert!(!app(identity("x"), var(usize::MAX)).redexes_in_range());
    assert!(!lam("y", app(var(0), app(identity("x"), var(INDEX_LIMIT)))).redexes_in_range());
    assert!(omega().redexes_in_range());
}

#[test]
fn outermost_is_the_first_redex_in_pre_order() {
    let terms = vec![
        app(app(plus(), church(2)), church(2)),
        app(identity("x"), app(identity("y"), var(0))),
        app(var(0), app(identity("y"), var(0))),
        lam("x", app(app(church(2), identity("i")), var(0))),
        var(4),
    ];
    for t in terms {
        assert_eq!(t.outermost_reduction(), t.specific_reduction(0));
    }
}

#[test]
fn reduction_keeps_the_labels_of_what_stays() {
    // (λouter. λinner. outer) arg: the label of the contracted abstraction goes
    let t = app(lam("outer", lam("inner", var(1))), lam("arg", var(0)));
    assert_eq!(t.normalise(), Some(lam("inner", lam("arg", var(0)))));
    assert_eq!(t.outermost_reduction(), Some(lam("inner", lam("arg", var(0)))));
}

#[test]
fn clone_is_equal() {
    let t = app(lam("x", app(var(0), var(3))), lam("y", var(1)));
    assert_eq!(t.clone(), t);
}
