use lambda_terms::lambda::Term;

fn var(x: usize) -> Term {
    Term::make_var(x)
}

fn lam(body: Term) -> Term {
    Term::make_abs(body, "v")
}

fn app(fun: Term, arg: Term) -> Term {
    Term::make_app(fun, arg)
}

/// `λ. (λ. 1 0) (0 2)`
fn sample() -> Term {
    lam(app(lam(app(var(1), var(0))), app(var(0), var(2))))
}

#[test]
fn node_counts() {
    let t = sample();
    assert_eq!(t.subterms(), 9);
    assert_eq!(t.variables(), 4);
    assert_eq!(t.abstractions(), 2);
    assert_eq!(t.applications(), 3);
    assert_eq!(t.beta_redexes(), 1);
    assert_eq!(var(0).subterms(), 1);
    assert_eq!(var(0).abstractions(), 0);
    assert_eq!(var(0).applications(), 0);
    assert_eq!(var(0).beta_redexes(), 0);
}

#[test]
fn free_occurrences_are_seen_from_the_root() {
    // under the outer binder the free occurrences are 0, 0 and 2
    assert_eq!(sample().free_variable_indices(), vec![1]);
    assert_eq!(sample().free_variables(), 1);
    let body = app(lam(app(var(1), var(0))), app(var(0), var(2)));
    assert_eq!(body.free_variable_indices(), vec![0, 0, 2]);
    assert_eq!(body.free_variables(), 3);
}

#[test]
fn an_abstraction_does_not_bind_what_stands_beside_it() {
    // 0 (λ. 0): the first 0 is free
    let t = app(var(0), lam(var(0)));
    assert_eq!(t.free_variable_indices(), vec![0]);
    assert!(!t.closed());
    let t = app(var(5), lam(var(0)));
    assert_eq!(t.free_variable_indices(), vec![5]);
}

#[test]
fn closed_terms() {
    assert!(lam(var(0)).closed());
    assert!(lam(lam(app(var(1), var(0)))).closed());
    assert!(!var(0).closed());
    assert!(!lam(var(1)).closed());
    assert!(!sample().closed());
}

#[test]
fn crossings_count_pairs_out_of_order() {
    // 0 1: the function side holds 0, the argument side the larger 1
    assert_eq!(app(var(0), var(1)).crossings(), 1);
    assert_eq!(app(var(1), var(0)).crossings(), 0);
    assert_eq!(app(var(1), var(1)).crossings(), 0);
    // (0 1) (1 2): 1 inside the function side, 1 inside the argument
    // side, and between them 0<1, 0<2, 1<2
    assert_eq!(app(app(var(0), var(1)), app(var(1), var(2))).crossings(), 5);
    // λ. λ. 0 1: seen under both binders
    assert_eq!(lam(lam(app(var(0), var(1)))).crossings(), 1);
    assert_eq!(var(3).crossings(), 0);
}

#[test]
fn bridges_count_closed_sides() {
    let id = lam(var(0));
    assert_eq!(app(id.clone(), id.clone()).bridges(), 2);
    assert_eq!(app(id.clone(), var(0)).bridges(), 1);
    assert_eq!(app(var(0), var(1)).bridges(), 0);
    // λ. 0 (λ. 0): the argument side is closed
    assert_eq!(lam(app(var(0), id.clone())).bridges(), 1);
    // ((λ. 0) (λ. 0)) (λ. 0): both sides of both applications
    assert_eq!(app(app(id.clone(), id.clone()), id).bridges(), 4);
    assert_eq!(var(0).bridges(), 0);
}

#[test]
fn unique_variables_count_binders_in_use_and_free_variables() {
    // one binder, used twice
    assert_eq!(lam(app(var(0), var(0))).unique_variables(), 1);
    assert_eq!(lam(lam(app(var(1), var(0)))).unique_variables(), 2);
    // two binders
    assert_eq!(app(lam(var(0)), lam(var(0))).unique_variables(), 2);
    // a binder that is not used, over a free variable
    assert_eq!(lam(var(1)).unique_variables(), 1);
    assert_eq!(lam(lam(var(5))).unique_variables(), 1);
    assert_eq!(app(var(0), var(1)).unique_variables(), 2);
    assert_eq!(app(var(3), var(3)).unique_variables(), 1);
    assert_eq!(var(0).unique_variables(), 1);
}

#[test]
fn unique_variables_follow_a_free_variable_under_binders() {
    // 0 (λ. 1): the same free variable twice
    assert_eq!(app(var(0), lam(var(1))).unique_variables(), 1);
    // (λ. 1) 0, seen in the other order
    assert_eq!(app(lam(var(1)), var(0)).unique_variables(), 1);
    // 0 (λ. 0): a free variable and a bound one
    assert_eq!(app(var(0), lam(var(0))).unique_variables(), 2);
    // λ. (λ. 1 0) (0 2): both binders and the free variable 1
    assert_eq!(sample().unique_variables(), 3);
}
