//! The reduction engine: index shifting, substitution, contraction of a
//! redex, and the four reduction strategies.

use vstd::prelude::*;
use crate::lambda::Lam;
use crate::lambda::Term;

verus! {

/// The bound on indices and on height within which a contraction is exact:
/// its intermediate indices and cutoffs, which may grow to twice what the
/// redex holds, then fit in `usize`.
pub const INDEX_LIMIT: usize = usize::MAX / 2;

/// The number of node visits that [`Term::normalise`] allows itself.
pub const MAX_OPS: usize = 10000;

impl Lam {
    /// Adds `d` to every index that is at least `c`, the cutoff; under an
    /// abstraction the cutoff is one higher.
    pub open spec fn shift(self, d: int, c: int) -> Lam
        decreases self,
    {
        match self {
            Lam::Var(x) => if x < c {
                self
            } else {
                Lam::Var(x + d)
            },
            Lam::Abs(body, label) => Lam::Abs(Box::new(body.shift(d, c + 1)), label),
            Lam::App(fun, arg) => Lam::App(Box::new(fun.shift(d, c)), Box::new(arg.shift(d, c))),
        }
    }

    /// Whether `shift(d, c)` stays within machine integers: no shifted index
    /// leaves `0..=usize::MAX`, and no cutoff does.
    pub open spec fn shift_fits(self, d: int, c: int) -> bool
        decreases self,
    {
        match self {
            Lam::Var(x) => x < c || 0 <= x + d <= usize::MAX,
            Lam::Abs(body, _) => c < usize::MAX && body.shift_fits(d, c + 1),
            Lam::App(fun, arg) => fun.shift_fits(d, c) && arg.shift_fits(d, c),
        }
    }

    /// Replaces every occurrence of the variable `j` by `s`; under an
    /// abstraction the variable is `j + 1` and `s` is lifted by one.
    pub open spec fn subst(self, j: int, s: Lam) -> Lam
        decreases self,
    {
        match self {
            Lam::Var(x) => if x == j {
                s
            } else {
                self
            },
            Lam::Abs(body, label) => Lam::Abs(Box::new(body.subst(j + 1, s.shift(1, 0))), label),
            Lam::App(fun, arg) => Lam::App(Box::new(fun.subst(j, s)), Box::new(arg.subst(j, s))),
        }
    }

    /// Whether `subst(j, s)` stays within machine integers.
    pub open spec fn subst_fits(self, j: int, s: Lam) -> bool
        decreases self,
    {
        match self {
            Lam::Var(_) => true,
            Lam::Abs(body, _) => j < usize::MAX && s.shift_fits(1, 0) && body.subst_fits(
                j + 1,
                s.shift(1, 0),
            ),
            Lam::App(fun, arg) => fun.subst_fits(j, s) && arg.subst_fits(j, s),
        }
    }

    /// The body of the abstraction of a redex.
    pub open spec fn redex_body(self) -> Lam
        recommends
            self.is_redex(),
    {
        self.app_fun().abs_body()
    }

    /// The argument of a redex.
    pub open spec fn redex_arg(self) -> Lam
        recommends
            self.is_redex(),
    {
        self.app_arg()
    }

    /// The contractum of a redex `(λ. body) arg`: `arg`, lifted by one, is
    /// substituted for variable 0 of `body`, and the result is lowered by one.
    pub open spec fn contract(self) -> Lam
        recommends
            self.is_redex(),
    {
        self.redex_body().subst(0, self.redex_arg().shift(1, 0)).shift(-1, 0)
    }

    /// Whether every index lies in `0..top` and the term is at most `depth`
    /// constructors high above its variables.
    pub open spec fn bounded(self, top: int, depth: int) -> bool
        decreases self,
    {
        match self {
            Lam::Var(x) => 0 <= x < top && 0 <= depth,
            Lam::Abs(body, _) => 0 < depth && body.bounded(top, depth - 1),
            Lam::App(fun, arg) => 0 < depth && fun.bounded(top, depth - 1) && arg.bounded(
                top,
                depth - 1,
            ),
        }
    }

    /// The number of redexes in the term.
    pub open spec fn redex_count(self) -> nat
        decreases self,
    {
        match self {
            Lam::Var(_) => 0,
            Lam::Abs(body, _) => body.redex_count(),
            Lam::App(fun, arg) => (if self.is_redex() {
                1nat
            } else {
                0nat
            }) + fun.redex_count() + arg.redex_count(),
        }
    }

    /// Whether the term is in normal form: it holds no redex.
    pub open spec fn is_normal(self) -> bool {
        self.redex_count() == 0
    }

    /// One step of normal-order reduction: the leftmost of the outermost
    /// redexes is contracted. `None` when the term is normal.
    pub open spec fn outermost(self) -> Option<Lam>
        decreases self,
    {
        match self {
            Lam::Var(_) => None,
            Lam::Abs(body, label) => match body.outermost() {
                Some(b) => Some(Lam::Abs(Box::new(b), label)),
                None => None,
            },
            Lam::App(fun, arg) => if self.is_redex() {
                Some(self.contract())
            } else {
                match fun.outermost() {
                    Some(f) => Some(Lam::App(Box::new(f), arg)),
                    None => match arg.outermost() {
                        Some(a) => Some(Lam::App(fun, Box::new(a))),
                        None => None,
                    },
                }
            },
        }
    }

    /// One step of applicative-order reduction: a redex is contracted only
    /// when neither its function side nor its argument side can be reduced.
    /// `None` when the term is normal.
    pub open spec fn innermost(self) -> Option<Lam>
        decreases self,
    {
        match self {
            Lam::Var(_) => None,
            Lam::Abs(body, label) => match body.innermost() {
                Some(b) => Some(Lam::Abs(Box::new(b), label)),
                None => None,
            },
            Lam::App(fun, arg) => match fun.innermost() {
                Some(f) => Some(Lam::App(Box::new(f), arg)),
                None => match arg.innermost() {
                    Some(a) => Some(Lam::App(fun, Box::new(a))),
                    None => if self.is_redex() {
                        Some(self.contract())
                    } else {
                        None
                    },
                },
            },
        }
    }

    /// The term with its redex number `i` contracted, where the redexes are
    /// numbered from 0 in pre-order: a node before its function side, the
    /// function side before the argument side. `None` when there is no such
    /// redex.
    pub open spec fn reduce_at(self, i: int) -> Option<Lam>
        decreases self,
    {
        match self {
            Lam::Var(_) => None,
            Lam::Abs(body, label) => match body.reduce_at(i) {
                Some(b) => Some(Lam::Abs(Box::new(b), label)),
                None => None,
            },
            Lam::App(fun, arg) => if self.is_redex() && i == 0 {
                Some(self.contract())
            } else {
                let i = if self.is_redex() {
                    i - 1
                } else {
                    i
                };
                if i < fun.redex_count() {
                    match fun.reduce_at(i) {
                        Some(f) => Some(Lam::App(Box::new(f), arg)),
                        None => None,
                    }
                } else {
                    match arg.reduce_at(i - fun.redex_count()) {
                        Some(a) => Some(Lam::App(fun, Box::new(a))),
                        None => None,
                    }
                }
            },
        }
    }

    /// Normalisation on a budget of node visits: the normal form and the
    /// budget that is left, or `None` when the budget runs out.
    ///
    /// Every node visited costs one. A redex is contracted and its
    /// contractum normalised in its place. Of any other application the
    /// function side is normalised first; if that gives an abstraction, the
    /// application of it to the argument as it stands is visited next, and
    /// only otherwise is the argument normalised. A redex that is not in
    /// range exhausts the budget.
    pub open spec fn normalise_with(self, budget: nat) -> Option<(Lam, nat)>
        decreases budget,
    {
        if budget == 0 {
            None
        } else {
            let rest = (budget - 1) as nat;
            match self {
                Lam::Var(_) => Some((self, rest)),
                Lam::Abs(body, label) => match body.normalise_with(rest) {
                    Some((b, left)) => Some((Lam::Abs(Box::new(b), label), left)),
                    None => None,
                },
                Lam::App(fun, arg) => if self.is_redex() {
                    if self.in_range() {
                        self.contract().normalise_with(rest)
                    } else {
                        None
                    }
                } else {
                    match fun.normalise_with(rest) {
                        None => None,
                        Some((f, left)) => {
                            // a visit never hands budget back
                            let left = if left <= rest {
                                left
                            } else {
                                rest
                            };
                            if f is Abs {
                                Lam::App(Box::new(f), arg).normalise_with(left)
                            } else {
                                match arg.normalise_with(left) {
                                    Some((a, left)) => Some(
                                        (Lam::App(Box::new(f), Box::new(a)), left),
                                    ),
                                    None => None,
                                }
                            }
                        },
                    }
                },
            }
        }
    }

    /// The normal form that is reached within [`MAX_OPS`] node visits.
    pub open spec fn normalise(self) -> Option<Lam> {
        match self.normalise_with(MAX_OPS as nat) {
            Some((n, _)) => Some(n),
            None => None,
        }
    }

    /// Whether indices and height are within [`INDEX_LIMIT`], which makes
    /// the contraction of the term exact in machine integers.
    pub open spec fn in_range(self) -> bool {
        self.bounded(INDEX_LIMIT as int, INDEX_LIMIT as int)
    }

    /// Whether every redex of the term is in range, so that whichever is
    /// contracted, the contraction is exact in machine integers.
    pub open spec fn redexes_in_range(self) -> bool
        decreases self,
    {
        match self {
            Lam::Var(_) => true,
            Lam::Abs(body, _) => body.redexes_in_range(),
            Lam::App(fun, arg) => (self.is_redex() ==> self.in_range()) && fun.redexes_in_range()
                && arg.redexes_in_range(),
        }
    }
}

impl Term {
    /// Adds `d` to every index that is at least the cutoff `c`.
    pub fn shift(&self, d: i32, c: usize) -> (r: Term)
        requires
            self@.shift_fits(d as int, c as int),
        ensures
            r@ == self@.shift(d as int, c as int),
        decreases self,
    {
        match self {
            Term::Var(x) => {
                if *x < c {
                    Term::Var(*x)
                } else if d >= 0 {
                    Term::Var(*x + d as usize)
                } else {
                    let down: i64 = -(d as i64);
                    Term::Var(*x - down as usize)
                }
            },
            Term::Abs(body, label) => Term::Abs(Box::new(body.shift(d, c + 1)), label.clone()),
            Term::App(fun, arg) => Term::App(Box::new(fun.shift(d, c)), Box::new(arg.shift(d, c))),
        }
    }

    /// Replaces every occurrence of the variable `j` by `s`.
    pub fn substitute(&self, j: usize, s: &Term) -> (r: Term)
        requires
            self@.subst_fits(j as int, s@),
        ensures
            r@ == self@.subst(j as int, s@),
        decreases self,
    {
        match self {
            Term::Var(x) => {
                if *x == j {
                    s.clone()
                } else {
                    Term::Var(*x)
                }
            },
            Term::Abs(body, label) => {
                let lifted = s.shift(1, 0);
                Term::Abs(Box::new(body.substitute(j + 1, &lifted)), label.clone())
            },
            Term::App(fun, arg) => Term::App(
                Box::new(fun.substitute(j, s)),
                Box::new(arg.substitute(j, s)),
            ),
        }
    }

    /// Whether every index is below `top` and the term is at most `depth`
    /// constructors high above its variables.
    pub fn bounded(&self, top: usize, depth: usize) -> (r: bool)
        ensures
            r == self@.bounded(top as int, depth as int),
        decreases self,
    {
        match self {
            Term::Var(x) => *x < top,
            Term::Abs(body, _) => depth > 0 && body.bounded(top, depth - 1),
            Term::App(fun, arg) => depth > 0 && fun.bounded(top, depth - 1) && arg.bounded(
                top,
                depth - 1,
            ),
        }
    }

    /// Whether indices and height are within [`INDEX_LIMIT`].
    pub fn in_range(&self) -> (r: bool)
        ensures
            r == self@.in_range(),
    {
        self.bounded(INDEX_LIMIT, INDEX_LIMIT)
    }

    /// Whether every redex of the term is in range.
    pub fn redexes_in_range(&self) -> (r: bool)
        ensures
            r == self@.redexes_in_range(),
        decreases self,
    {
        match self {
            Term::Var(_) => true,
            Term::Abs(body, _) => body.redexes_in_range(),
            Term::App(fun, arg) => (!self.is_beta_redex() || self.in_range())
                && fun.redexes_in_range() && arg.redexes_in_range(),
        }
    }

    /// Contracts the term if it is a redex `(λ. body) arg`: `arg`, lifted by
    /// one, takes the place of variable 0 in `body`, and the result is
    /// lowered by one. `None` for a term of any other shape.
    pub fn perform_beta_reduction(&self) -> (r: Option<Term>)
        requires
            self@.is_redex() ==> self@.in_range(),
        ensures
            r.deep_view() == (if self@.is_redex() {
                Some(self@.contract())
            } else {
                None
            }),
    {
        if let Term::App(abs, arg) = self {
            if let Term::Abs(body, _) = &**abs {
                proof {
                    assert(abs@ is Abs);
                    assert(self@.redex_body() == body@ && self@.redex_arg() == arg@);
                    self@.lemma_contraction_fits();
                }
                Some(body.substitute(0, &arg.shift(1, 0)).shift(-1, 0))
            } else {
                None
            }
        } else {
            None
        }
    }

    /// One step of normal-order reduction: contracts the leftmost of the
    /// outermost redexes. `None` when the term holds no redex.
    pub fn outermost_reduction(&self) -> (r: Option<Term>)
        requires
            self@.redexes_in_range(),
        ensures
            r.deep_view() == self@.outermost(),
            r is None <==> self@.is_normal(),
        decreases self,
    {
        proof {
            self@.lemma_outermost_finds();
        }
        match self {
            Term::Var(_) => None,
            Term::Abs(t, x) => match t.outermost_reduction() {
                None => None,
                Some(t) => Some(Term::make_abs(t, x.as_str())),
            },
            Term::App(t1, t2) => match self.perform_beta_reduction() {
                Some(t) => Some(t),
                None => match t1.outermost_reduction() {
                    Some(t1) => Some(Term::remake_app_lhs(t1, t2)),
                    None => match t2.outermost_reduction() {
                        Some(t2) => Some(Term::remake_app_rhs(t1, t2)),
                        None => None,
                    },
                },
            },
        }
    }

    /// One step of applicative-order reduction: reduces inside the function
    /// side, else inside the argument side, else contracts the term itself.
    /// `None` when the term holds no redex.
    pub fn innermost_reduction(&self) -> (r: Option<Term>)
        requires
            self@.redexes_in_range(),
        ensures
            r.deep_view() == self@.innermost(),
            r is None <==> self@.is_normal(),
        decreases self,
    {
        proof {
            self@.lemma_innermost_finds();
        }
        match self {
            Term::Var(_) => None,
            Term::Abs(t, x) => match t.innermost_reduction() {
                Some(t) => Some(Term::make_abs(t, x.as_str())),
                None => None,
            },
            Term::App(t1, t2) => match t1.innermost_reduction() {
                Some(t1) => Some(Term::remake_app_lhs(t1, t2)),
                None => match t2.innermost_reduction() {
                    Some(t2) => Some(Term::remake_app_rhs(t1, t2)),
                    None => self.perform_beta_reduction(),
                },
            },
        }
    }

    /// Searches for redex number `i` in pre-order. Gives the term with that
    /// redex contracted and 0, or `None` and `i` less the redexes passed.
    pub fn specific_reduction_from(&self, i: usize) -> (r: (Option<Term>, usize))
        requires
            self@.redexes_in_range(),
        ensures
            r.0.deep_view() == self@.reduce_at(i as int),
            r.0 is Some <==> i < self@.redex_count(),
            r.0 is Some ==> r.1 == 0,
            r.0 is None ==> r.1 == i - self@.redex_count(),
        decreases self,
    {
        proof {
            self@.lemma_reduce_at_finds(i as int);
        }
        match self {
            Term::Var(_) => (None, i),
            Term::Abs(t, x) => match t.specific_reduction_from(i) {
                (Some(t), i) => (Some(Term::make_abs(t, x.as_str())), i),
                (None, i) => (None, i),
            },
            Term::App(t1, t2) => {
                if self.is_beta_redex() && i == 0 {
                    (self.perform_beta_reduction(), 0)
                } else {
                    let i = if self.is_beta_redex() {
                        i - 1
                    } else {
                        i
                    };
                    match t1.specific_reduction_from(i) {
                        (Some(t1), i) => (Some(Term::remake_app_lhs(t1, t2)), i),
                        (None, i) => match t2.specific_reduction_from(i) {
                            (Some(t2), i) => (Some(Term::remake_app_rhs(t1, t2)), i),
                            (None, i) => (None, i),
                        },
                    }
                }
            },
        }
    }

    /// Contracts redex number `i`, counted from 0 in pre-order. `None` when
    /// the term holds `i` redexes or fewer.
    pub fn specific_reduction(&self, i: usize) -> (r: Option<Term>)
        requires
            self@.redexes_in_range(),
        ensures
            r.deep_view() == self@.reduce_at(i as int),
            r is Some <==> i < self@.redex_count(),
    {
        self.specific_reduction_from(i).0
    }

    /// Normalises on a budget of node visits. Gives the normal form and the
    /// budget that is left, or `None` when the budget runs out. A redex that
    /// is not in range is not contracted: it exhausts the budget.
    pub fn normalise_with_budget(&self, budget: usize) -> (r: Option<(Term, usize)>)
        ensures
            match r {
                Some((n, left)) => self@.normalise_with(budget as nat) == Some((n@, left as nat))
                    && left < budget && n@.is_normal(),
                None => self@.normalise_with(budget as nat) is None,
            },
        decreases budget,
    {
        proof {
            if self@.normalise_with(budget as nat) is Some {
                self@.lemma_normalise_with_normal(budget as nat);
            }
        }
        if budget == 0 {
            return None;
        }
        let rest = budget - 1;
        match self {
            Term::Var(x) => Some((Term::Var(*x), rest)),
            Term::Abs(t, x) => match t.normalise_with_budget(rest) {
                Some((t, left)) => Some((Term::make_abs(t, x.as_str()), left)),
                None => None,
            },
            Term::App(t1, t2) => {
                if self.is_beta_redex() {
                    if !self.in_range() {
                        return None;
                    }
                    match self.perform_beta_reduction() {
                        Some(t) => t.normalise_with_budget(rest),
                        None => None,
                    }
                } else {
                    match t1.normalise_with_budget(rest) {
                        None => None,
                        Some((t1n, left)) => {
                            if t1n.is_abs() {
                                let t = Term::remake_app_lhs(t1n, t2);
                                t.normalise_with_budget(left)
                            } else {
                                match t2.normalise_with_budget(left) {
                                    Some((t2n, left)) => Some((Term::make_app(t1n, t2n), left)),
                                    None => None,
                                }
                            }
                        },
                    }
                }
            },
        }
    }

    /// Reduces the term to normal form within [`MAX_OPS`] node visits.
    /// `None` when the visits run out first, which a redex out of range
    /// brings about at once; never a term that is only partly reduced.
    pub fn normalise(&self) -> (r: Option<Term>)
        ensures
            r.deep_view() == self@.normalise(),
            r matches Some(n) ==> n@.is_normal(),
    {
        match self.normalise_with_budget(MAX_OPS) {
            Some((t, _)) => Some(t),
            None => None,
        }
    }
}

} // verus!
