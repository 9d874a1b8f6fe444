use lambda_terms::lambda::Term;
use lambda_terms::print::decimal_string;

fn var(x: usize) -> Term {
    Term::make_var(x)
}

fn lam(label: &str, body: Term) -> Term {
    Term::make_abs(body, label)
}

fn app(fun: Term, arg: Term) -> Term {
    Term::make_app(fun, arg)
}

#[test]
fn decimal_numbers() {
    assert_eq!(decimal_string(0), "0");
    assert_eq!(decimal_string(7), "7");
    assert_eq!(decimal_string(10), "10");
    assert_eq!(decimal_string(1234567890), "1234567890");
    assert_eq!(decimal_string(usize::MAX), usize::MAX.to_string());
}

#[test]
fn prints_indices_without_a_context() {
    assert_eq!(var(12).pretty_print(None), "12");
    assert_eq!(lam("x", var(0)).pretty_print(None), "λ 0");
    assert_eq!(app(var(0), var(1)).pretty_print(None), "0 1");
    assert_eq!(lam("x", lam("y", app(var(1), var(0)))).pretty_print(None), "λ λ 1 0");
}

#[test]
fn brackets_abstractions_inside_applications() {
    let id = lam("x", var(0));
    assert_eq!(app(id.clone(), id.clone()).pretty_print(None), "(λ 0) (λ 0)");
    assert_eq!(app(var(0), app(var(1), var(2))).pretty_print(None), "0 1 2");
    assert_eq!(lam("f", app(id, var(0))).pretty_print(None), "λ (λ 0) 0");
}

#[test]
fn prints_labels_with_a_context() {
    let ctx: Vec<String> = Vec::new();
    assert_eq!(lam("x", var(0)).pretty_print(Some(&ctx)), "λx. x");
    let t = lam("f", lam("x", app(var(1), app(var(1), var(0)))));
    assert_eq!(t.pretty_print(Some(&ctx)), "λf. λx. f f x");
    let t = app(lam("x", var(0)), lam("y", var(0)));
    assert_eq!(t.pretty_print(Some(&ctx)), "(λx. x) (λy. y)");
}

#[test]
fn prints_free_variables_from_the_end_of_the_context() {
    let ctx = vec!["a".to_string(), "b".to_string(), "c".to_string()];
    assert_eq!(var(0).pretty_print(Some(&ctx)), "c");
    assert_eq!(var(2).pretty_print(Some(&ctx)), "a");
    // under one binder the index 1 is the free variable 0
    let t = lam("x", app(app(var(0), var(1)), var(3)));
    assert_eq!(t.pretty_print(Some(&ctx)), "λx. x c a");
}

#[test]
fn an_inner_label_hides_nothing() {
    let ctx = vec!["x".to_string()];
    let t = lam("x", lam("x", app(app(var(0), var(1)), var(2))));
    assert_eq!(t.pretty_print(Some(&ctx)), "λx. λx. x x x");
}
