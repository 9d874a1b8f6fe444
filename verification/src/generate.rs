//! Enumeration of the terms of a given size in the pure, the linear and
//! the planar fragment.

use vstd::prelude::*;
use crate::contexts::Split;
use crate::contexts::descending_list;
use crate::contexts::drawn_from;
use crate::contexts::generate_linear_contexts;
use crate::contexts::generate_planar_contexts;
use crate::contexts::generate_pure_contexts;
use crate::contexts::lemma_splits_view;
use crate::contexts::linear_contexts;
use crate::contexts::planar_contexts;
use crate::contexts::pure_contexts;
use crate::lambda::Lam;
use crate::lambda::Term;

verus! {

/// A fragment of the lambda calculus, by how a term may use its variables.
#[allow(non_camel_case_types)]
#[derive(Copy, Clone, Debug, PartialEq, Eq)]
pub enum Fragment {
    /// Every variable may be used any number of times.
    PURE,
    /// Every variable is used exactly once.
    LINEAR,
    /// Every variable is used exactly once, and in the order of binding.
    PLANAR,
}

/// The contexts of the two sides of an application whose own context is
/// `ks`.
pub open spec fn contexts(ks: Seq<usize>, fragment: Fragment) -> Seq<Split> {
    match fragment {
        Fragment::PURE => pure_contexts(ks),
        Fragment::PLANAR => planar_contexts(ks),
        Fragment::LINEAR => linear_contexts(ks),
    }
}

/// The context under one more abstraction: every variable is one further
/// away, and the variable of the abstraction comes last.
pub open spec fn under_binder(ks: Seq<usize>) -> Seq<usize> {
    ks.map_values(|k: usize| (k + 1) as usize).push(1)
}

/// The variables of a context as terms. A context counts its variables
/// from 1, a term from 0.
pub open spec fn variables_of(ks: Seq<usize>) -> Seq<Lam> {
    ks.map_values(|k: usize| Lam::Var(k - 1))
}

/// The abstractions of the terms `ts`, without a label.
pub open spec fn abstractions_of(ts: Seq<Lam>) -> Seq<Lam> {
    ts.map_values(|t: Lam| Lam::Abs(Box::new(t), ""@))
}

/// The applications of `l` to each of `rs`.
pub open spec fn apps_of(l: Lam, rs: Seq<Lam>) -> Seq<Lam> {
    rs.map_values(|r: Lam| Lam::App(Box::new(l), Box::new(r)))
}

/// The applications of each of `ls` to each of `rs`, those of the first
/// of `ls` first.
pub open spec fn all_apps(ls: Seq<Lam>, rs: Seq<Lam>) -> Seq<Lam>
    decreases ls.len(),
{
    if ls.len() == 0 {
        Seq::empty()
    } else {
        all_apps(ls.drop_last(), rs) + apps_of(ls.last(), rs)
    }
}

/// The terms with `n` nodes over the context `ks`: the abstractions first,
/// then the applications by the size of their function side.
pub open spec fn terms(n: nat, ks: Seq<usize>, fragment: Fragment) -> Seq<Lam>
    decreases n, 2nat, 0nat,
{
    if n == 0 {
        Seq::empty()
    } else if n == 1 {
        if ks.len() == 1 || fragment is PURE {
            variables_of(ks)
        } else {
            Seq::empty()
        }
    } else {
        abstractions_of(terms((n - 1) as nat, under_binder(ks), fragment)) + applications(
            n,
            (n - 2) as nat,
            ks,
            fragment,
        )
    }
}

/// The applications with `n` nodes over the context `ks` whose function
/// side has from 1 to `upto` nodes.
pub open spec fn applications(n: nat, upto: nat, ks: Seq<usize>, fragment: Fragment) -> Seq<Lam>
    decreases n, 1nat, upto,
{
    if upto == 0 || upto + 1 >= n {
        Seq::empty()
    } else {
        applications(n, (upto - 1) as nat, ks, fragment) + applications_over(
            n,
            upto,
            contexts(ks, fragment),
            fragment,
        )
    }
}

/// The applications with `n` nodes whose function side has `i` nodes, over
/// each split of `cs` in turn.
pub open spec fn applications_over(n: nat, i: nat, cs: Seq<Split>, fragment: Fragment) -> Seq<Lam>
    decreases n, 0nat, cs.len(),
{
    if cs.len() == 0 || i == 0 || i + 1 >= n {
        Seq::empty()
    } else {
        applications_over(n, i, cs.drop_last(), fragment) + all_apps(
            terms(i, cs.last().0, fragment),
            terms((n - 1 - i) as nat, cs.last().1, fragment),
        )
    }
}

/// Whether a context leaves room for `n` more abstractions and counts from
/// 1.
pub open spec fn roomy(ks: Seq<usize>, n: nat) -> bool {
    forall|i: int| 0 <= i < ks.len() ==> 1 <= #[trigger] ks[i] && ks[i] + n <= usize::MAX
}

/// Appends `t`.
fn push_term(out: &mut Vec<Term>, t: Term)
    ensures
        final(out).deep_view() == old(out).deep_view().push(t@),
{
    out.push(t);
    assert(out.deep_view() =~= old(out).deep_view().push(t@));
}

/// Appends the abstraction of each of `ts`.
fn push_abstractions(out: &mut Vec<Term>, ts: &Vec<Term>)
    ensures
        final(out).deep_view() == old(out).deep_view() + abstractions_of(ts.deep_view()),
{
    let ghost before = out.deep_view();
    let mut i: usize = 0;
    assert(out.deep_view() =~= before + abstractions_of(ts.deep_view().take(0)));
    while i < ts.len()
        invariant
            i <= ts.len(),
            out.deep_view() == before + abstractions_of(ts.deep_view().take(i as int)),
        decreases ts.len() - i,
    {
        push_term(out, Term::make_abs(ts[i].clone(), ""));
        assert(out.deep_view() =~= before + abstractions_of(ts.deep_view().take(i + 1)));
        i = i + 1;
    }
    assert(ts.deep_view().take(i as int) == ts.deep_view());
}

/// Appends the application of `l` to each of `rs`.
fn push_apps_of(out: &mut Vec<Term>, l: &Term, rs: &Vec<Term>)
    ensures
        final(out).deep_view() == old(out).deep_view() + apps_of(l@, rs.deep_view()),
{
    let ghost before = out.deep_view();
    let mut i: usize = 0;
    assert(out.deep_view() =~= before + apps_of(l@, rs.deep_view().take(0)));
    while i < rs.len()
        invariant
            i <= rs.len(),
            out.deep_view() == before + apps_of(l@, rs.deep_view().take(i as int)),
        decreases rs.len() - i,
    {
        push_term(out, Term::make_app(l.clone(), rs[i].clone()));
        assert(out.deep_view() =~= before + apps_of(l@, rs.deep_view().take(i + 1)));
        i = i + 1;
    }
    assert(rs.deep_view().take(i as int) == rs.deep_view());
}

/// Appends the application of each of `ls` to each of `rs`.
fn push_all_apps(out: &mut Vec<Term>, ls: &Vec<Term>, rs: &Vec<Term>)
    ensures
        final(out).deep_view() == old(out).deep_view() + all_apps(ls.deep_view(), rs.deep_view()),
{
    let ghost before = out.deep_view();
    let mut i: usize = 0;
    assert(out.deep_view() =~= before + all_apps(ls.deep_view().take(0), rs.deep_view()));
    while i < ls.len()
        invariant
            i <= ls.len(),
            out.deep_view() == before + all_apps(ls.deep_view().take(i as int), rs.deep_view()),
        decreases ls.len() - i,
    {
        push_apps_of(out, &ls[i], rs);
        assert(ls.deep_view().take(i + 1).drop_last() == ls.deep_view().take(i as int));
        assert(out.deep_view() =~= before + all_apps(ls.deep_view().take(i + 1), rs.deep_view()));
        i = i + 1;
    }
    assert(ls.deep_view().take(i as int) == ls.deep_view());
}

/// The variables of a context as terms.
fn variables_from(ks: &Vec<usize>) -> (r: Vec<Term>)
    requires
        roomy(ks@, 0),
    ensures
        r.deep_view() == variables_of(ks@),
{
    let mut r: Vec<Term> = Vec::new();
    let mut i: usize = 0;
    assert(r.deep_view() =~= variables_of(ks@.take(0)));
    while i < ks.len()
        invariant
            i <= ks.len(),
            roomy(ks@, 0),
            r.deep_view() == variables_of(ks@.take(i as int)),
        decreases ks.len() - i,
    {
        push_term(&mut r, Term::make_var(ks[i] - 1));
        assert(r.deep_view() =~= variables_of(ks@.take(i + 1)));
        i = i + 1;
    }
    assert(ks@.take(i as int) == ks@);
    r
}

/// The context under one more abstraction.
fn context_under_binder(ks: &Vec<usize>) -> (r: Vec<usize>)
    requires
        forall|i: int| 0 <= i < ks.len() ==> #[trigger] ks[i] < usize::MAX,
    ensures
        r@ == under_binder(ks@),
{
    let mut r: Vec<usize> = Vec::new();
    let mut i: usize = 0;
    while i < ks.len()
        invariant
            i <= ks.len(),
            forall|i: int| 0 <= i < ks.len() ==> #[trigger] ks[i] < usize::MAX,
            r@ == ks@.take(i as int).map_values(|k: usize| (k + 1) as usize),
        decreases ks.len() - i,
    {
        r.push(ks[i] + 1);
        assert(r@ =~= ks@.take(i + 1).map_values(|k: usize| (k + 1) as usize));
        i = i + 1;
    }
    assert(ks@.take(i as int) == ks@);
    r.push(1);
    r
}

/// The contexts of the two sides of an application whose own context is
/// `ks`.
fn contexts_for(ks: &Vec<usize>, fragment: Fragment) -> (cs: Vec<(Vec<usize>, Vec<usize>)>)
    ensures
        cs.deep_view() == contexts(ks@, fragment),
        drawn_from(cs.deep_view(), ks@),
{
    match fragment {
        Fragment::PURE => generate_pure_contexts(ks),
        Fragment::PLANAR => generate_planar_contexts(ks),
        Fragment::LINEAR => generate_linear_contexts(ks),
    }
}

/// The terms with `n` nodes over the context `ks`.
pub fn generate_terms_helper(n: usize, ks: &Vec<usize>, fragment: Fragment) -> (found: Vec<Term>)
    requires
        roomy(ks@, n as nat),
    ensures
        found.deep_view() == terms(n as nat, ks@, fragment),
    decreases n,
{
    if n == 0 {
        let found: Vec<Term> = Vec::new();
        assert(found.deep_view() =~= Seq::<Lam>::empty());
        found
    } else if n == 1 {
        if ks.len() == 1 {
            variables_from(ks)
        } else {
            match fragment {
                Fragment::PURE => variables_from(ks),
                // If there are multiple free variables, there are no linear or planar
                // terms of size 1 as each variable must be used exactly once
                _ => {
                    let found: Vec<Term> = Vec::new();
                    assert(found.deep_view() =~= Seq::<Lam>::empty());
                    found
                },
            }
        }
    } else {
        let mut found: Vec<Term> = Vec::new();
        assert(found.deep_view() =~= Seq::<Lam>::empty());
        // Under an abstraction, all the free variables are incremented by 1,
        // and the newest variable is pushed
        let inner = context_under_binder(ks);
        let abs_terms = generate_terms_helper(n - 1, &inner, fragment);
        push_abstractions(&mut found, &abs_terms);
        let ghost abstractions = found.deep_view();
        assert(abstractions == abstractions_of(terms((n - 1) as nat, under_binder(ks@), fragment)));
        // We split the subterms between each side of the application
        let mut i: usize = 1;
        while i < n - 1
            invariant
                2 <= n,
                1 <= i <= n - 1,
                roomy(ks@, n as nat),
                found.deep_view() == abstractions + applications(
                    n as nat,
                    (i - 1) as nat,
                    ks@,
                    fragment,
                ),
            decreases n - i,
        {
            // The two subterms may have different contexts
            let cs = contexts_for(ks, fragment);
            let ghost before = found.deep_view();
            let mut c: usize = 0;
            proof {
                lemma_splits_view(cs);
                assert(cs.deep_view().take(0) =~= Seq::<Split>::empty());
            }
            while c < cs.len()
                invariant
                    2 <= n,
                    1 <= i < n - 1,
                    c <= cs.len(),
                    roomy(ks@, n as nat),
                    drawn_from(cs.deep_view(), ks@),
                    cs.deep_view().len() == cs.len(),
                    forall|k: int|
                        0 <= k < cs.len() ==> #[trigger] cs.deep_view()[k] == (cs[k].0@, cs[k].1@),
                    found.deep_view() == before + applications_over(
                        n as nat,
                        i as nat,
                        cs.deep_view().take(c as int),
                        fragment,
                    ),
                decreases cs.len() - c,
            {
                let lhs_context = &cs[c].0;
                let rhs_context = &cs[c].1;
                proof {
                    let split = cs.deep_view()[c as int];
                    assert forall|k: int| 0 <= k < lhs_context@.len() implies 1
                        <= #[trigger] lhs_context@[k] && lhs_context@[k] + i <= usize::MAX by {
                        assert(ks@.contains(split.0[k]));
                    }
                    assert forall|k: int| 0 <= k < rhs_context@.len() implies 1
                        <= #[trigger] rhs_context@[k] && rhs_context@[k] + (n - 1 - i)
                        <= usize::MAX by {
                        assert(ks@.contains(split.1[k]));
                    }
                }
                let lhs = generate_terms_helper(i, lhs_context, fragment);
                let rhs = generate_terms_helper(n - 1 - i, rhs_context, fragment);
                push_all_apps(&mut found, &lhs, &rhs);
                proof {
                    let upto = cs.deep_view().take(c + 1);
                    assert(upto.drop_last() == cs.deep_view().take(c as int));
                    assert(upto.last() == (lhs_context@, rhs_context@));
                }
                c = c + 1;
            }
            assert(cs.deep_view().take(c as int) == cs.deep_view());
            i = i + 1;
        }
        found
    }
}

/// The terms with `n` nodes and the free variables 0 to `k - 1`, in the
/// given fragment.
pub fn generate_terms(n: usize, k: usize, fragment: Fragment) -> (found: Vec<Term>)
    requires
        k + n <= usize::MAX,
    ensures
        found.deep_view() == terms(n as nat, Seq::new(k as nat, |i: int| (k - i) as usize), fragment),
{
    let context = descending_list(k);
    generate_terms_helper(n, &context, fragment)
}

} // verus!
