use lambda_terms::contexts::descending_list;
use lambda_terms::contexts::generate_linear_contexts;
use lambda_terms::contexts::generate_planar_contexts;
use lambda_terms::contexts::generate_pure_contexts;
use lambda_terms::contexts::linear_contexts_from;
use lambda_terms::generate::generate_terms;
use lambda_terms::generate::generate_terms_helper;
use lambda_terms::generate::Fragment;
use lambda_terms::lambda::Term;

fn var(x: usize) -> Term {
    Term::make_var(x)
}

fn lam(body: Term) -> Term {
    Term::make_abs(body, "")
}

fn app(fun: Term, arg: Term) -> Term {
    Term::make_app(fun, arg)
}

#[test]
fn descending_lists() {
    assert_eq!(descending_list(0), Vec::<usize>::new());
    assert_eq!(descending_list(1), vec![1]);
    assert_eq!(descending_list(4), vec![4, 3, 2, 1]);
}

#[test]
fn pure_contexts_give_both_sides_everything() {
    assert_eq!(generate_pure_contexts(&vec![2, 1]), vec![(vec![2, 1], vec![2, 1])]);
    assert_eq!(generate_pure_contexts(&vec![]), vec![(vec![], vec![])]);
}

#[test]
fn planar_contexts_cut_at_every_position() {
    assert_eq!(
        generate_planar_contexts(&vec![3, 2, 1]),
        vec![
            (vec![], vec![3, 2, 1]),
            (vec![3], vec![2, 1]),
            (vec![3, 2], vec![1]),
            (vec![3, 2, 1], vec![]),
        ]
    );
    assert_eq!(generate_planar_contexts(&vec![]), vec![(vec![], vec![])]);
}

#[test]
fn linear_contexts_cut_every_arrangement() {
    assert_eq!(
        generate_linear_contexts(&vec![2, 1]),
        vec![
            (vec![], vec![2, 1]),
            (vec![], vec![1, 2]),
            (vec![2], vec![1]),
            (vec![1], vec![2]),
            (vec![2, 1], vec![]),
            (vec![1, 2], vec![]),
        ]
    );
    assert_eq!(generate_linear_contexts(&vec![]), vec![(vec![], vec![])]);
    assert_eq!(generate_linear_contexts(&vec![5]), vec![(vec![], vec![5]), (vec![5], vec![])]);
}

#[test]
fn linear_contexts_drop_repeated_arrangements() {
    assert_eq!(
        generate_linear_contexts(&vec![1, 1]),
        vec![(vec![], vec![1, 1]), (vec![1], vec![1]), (vec![1, 1], vec![])]
    );
    let contexts = generate_linear_contexts(&vec![1, 2, 1]);
    // three distinct arrangements, each cut at four positions
    assert_eq!(contexts.len(), 12);
    assert_eq!(contexts[0], (vec![], vec![1, 2, 1]));
    assert_eq!(contexts[1], (vec![], vec![1, 1, 2]));
    assert_eq!(contexts[2], (vec![], vec![2, 1, 1]));
}

#[test]
fn linear_contexts_count_arrangements() {
    // 3! arrangements, each cut at 4 positions
    assert_eq!(generate_linear_contexts(&vec![3, 2, 1]).len(), 24);
}

#[test]
fn cuts_of_given_arrangements() {
    let perms = vec![vec![7, 8], vec![9, 9]];
    assert_eq!(
        linear_contexts_from(&perms, 2),
        vec![
            (vec![], vec![7, 8]),
            (vec![], vec![9, 9]),
            (vec![7], vec![8]),
            (vec![9], vec![9]),
            (vec![7, 8], vec![]),
            (vec![9, 9], vec![]),
        ]
    );
    assert_eq!(linear_contexts_from(&vec![], 3), vec![]);
}

#[test]
fn no_terms_of_size_zero() {
    assert_eq!(generate_terms(0, 2, Fragment::PURE), vec![]);
    assert_eq!(generate_terms(0, 0, Fragment::LINEAR), vec![]);
}

#[test]
fn terms_of_size_one_are_variables() {
    assert_eq!(generate_terms(1, 1, Fragment::LINEAR), vec![var(0)]);
    assert_eq!(generate_terms(1, 1, Fragment::PLANAR), vec![var(0)]);
    assert_eq!(generate_terms(1, 3, Fragment::PURE), vec![var(2), var(1), var(0)]);
    // a linear or planar term uses every variable
    assert_eq!(generate_terms(1, 3, Fragment::LINEAR), vec![]);
    assert_eq!(generate_terms(1, 2, Fragment::PLANAR), vec![]);
    assert_eq!(generate_terms(1, 0, Fragment::PURE), vec![]);
}

#[test]
fn closed_terms_of_size_two() {
    for fragment in [Fragment::PURE, Fragment::LINEAR, Fragment::PLANAR] {
        assert_eq!(generate_terms(2, 0, fragment), vec![lam(var(0))]);
    }
}

#[test]
fn pure_terms_of_size_three_over_one_variable() {
    assert_eq!(
        generate_terms(3, 1, Fragment::PURE),
        vec![
            lam(lam(var(2))),
            lam(lam(var(1))),
            lam(lam(var(0))),
            app(var(0), var(0)),
        ]
    );
}

#[test]
fn linear_terms_of_size_three_over_two_variables() {
    assert_eq!(
        generate_terms(3, 2, Fragment::LINEAR),
        vec![app(var(1), var(0)), app(var(0), var(1))]
    );
    assert_eq!(generate_terms(3, 2, Fragment::PLANAR), vec![app(var(1), var(0))]);
}

#[test]
fn closed_linear_terms_of_size_five() {
    let id = lam(var(0));
    assert_eq!(
        generate_terms(5, 0, Fragment::LINEAR),
        vec![
            lam(lam(app(var(1), var(0)))),
            lam(lam(app(var(0), var(1)))),
            lam(app(var(0), id.clone())),
            lam(app(id.clone(), var(0))),
            app(id.clone(), id.clone()),
        ]
    );
    assert_eq!(
        generate_terms(5, 0, Fragment::PLANAR),
        vec![
            lam(lam(app(var(1), var(0)))),
            lam(app(var(0), id.clone())),
            lam(app(id.clone(), var(0))),
            app(id.clone(), id),
        ]
    );
}

#[test]
fn generated_closed_terms_are_closed_and_of_the_size_asked_for() {
    for fragment in [Fragment::PURE, Fragment::LINEAR, Fragment::PLANAR] {
        for n in 0..7 {
            for t in generate_terms(n, 0, fragment) {
                assert_eq!(t.subterms() as usize, n);
                assert!(t.closed());
            }
        }
    }
}

#[test]
fn helper_takes_the_context_as_given() {
    assert_eq!(generate_terms_helper(1, &vec![4], Fragment::LINEAR), vec![var(3)]);
    assert_eq!(
        generate_terms_helper(2, &vec![4], Fragment::PURE),
        vec![lam(var(4)), lam(var(0))]
    );
}
