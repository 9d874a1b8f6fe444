//! Why a contraction inside a term that is in range never leaves machine
//! integers, and never produces a negative index.

use vstd::prelude::*;
use crate::eval::INDEX_LIMIT;
use crate::lambda::Lam;

verus! {

impl Lam {
    /// Whether the variable `c` does not occur; under an abstraction the
    /// variable is `c + 1`.
    pub open spec fn avoids(self, c: int) -> bool
        decreases self,
    {
        match self {
            Lam::Var(x) => x != c,
            Lam::Abs(body, _) => body.avoids(c + 1),
            Lam::App(fun, arg) => fun.avoids(c) && arg.avoids(c),
        }
    }

    /// Larger bounds admit the same term.
    pub proof fn lemma_bounded_weaken(self, top: int, depth: int, top2: int, depth2: int)
        requires
            self.bounded(top, depth),
            top <= top2,
            depth <= depth2,
        ensures
            self.bounded(top2, depth2),
        decreases self,
    {
        match self {
            Lam::Var(_) => {},
            Lam::Abs(body, _) => {
                body.lemma_bounded_weaken(top, depth - 1, top2, depth2 - 1);
            },
            Lam::App(fun, arg) => {
                fun.lemma_bounded_weaken(top, depth - 1, top2, depth2 - 1);
                arg.lemma_bounded_weaken(top, depth - 1, top2, depth2 - 1);
            },
        }
    }

    /// Lifting a bounded term fits, and raises the bound on indices by the
    /// amount of the lift.
    pub proof fn lemma_lift_fits(self, d: int, c: int, top: int, depth: int)
        requires
            self.bounded(top, depth),
            0 <= d,
            0 <= c,
            c + depth <= usize::MAX,
            top + d <= usize::MAX + 1,
        ensures
            self.shift_fits(d, c),
            self.shift(d, c).bounded(top + d, depth),
        decreases self,
    {
        match self {
            Lam::Var(_) => {},
            Lam::Abs(body, _) => {
                body.lemma_lift_fits(d, c + 1, top, depth - 1);
            },
            Lam::App(fun, arg) => {
                fun.lemma_lift_fits(d, c, top, depth - 1);
                arg.lemma_lift_fits(d, c, top, depth - 1);
            },
        }
    }

    /// Substituting a bounded term into a bounded term fits; the result is
    /// as high as both together.
    pub proof fn lemma_subst_fits(
        self,
        j: int,
        s: Lam,
        top: int,
        depth: int,
        s_top: int,
        s_depth: int,
        r_top: int,
    )
        requires
            self.bounded(top, depth),
            s.bounded(s_top, s_depth),
            0 <= j,
            j + depth <= usize::MAX,
            s_depth <= usize::MAX,
            top <= r_top,
            s_top + depth <= r_top <= usize::MAX + 1,
        ensures
            self.subst_fits(j, s),
            self.subst(j, s).bounded(r_top, depth + s_depth),
        decreases self,
    {
        match self {
            Lam::Var(x) => {
                if x == j {
                    s.lemma_bounded_weaken(s_top, s_depth, r_top, depth + s_depth);
                }
            },
            Lam::Abs(body, _) => {
                s.lemma_lift_fits(1, 0, s_top, s_depth);
                body.lemma_subst_fits(
                    j + 1,
                    s.shift(1, 0),
                    top,
                    depth - 1,
                    s_top + 1,
                    s_depth,
                    r_top,
                );
            },
            Lam::App(fun, arg) => {
                fun.lemma_subst_fits(j, s, top, depth - 1, s_top, s_depth, r_top);
                arg.lemma_subst_fits(j, s, top, depth - 1, s_top, s_depth, r_top);
            },
        }
    }

    /// A term lifted at cutoff `c` no longer mentions the variable `c`.
    pub proof fn lemma_lifted_avoids(self, c: int)
        ensures
            self.shift(1, c).avoids(c),
        decreases self,
    {
        match self {
            Lam::Var(_) => {},
            Lam::Abs(body, _) => {
                body.lemma_lifted_avoids(c + 1);
            },
            Lam::App(fun, arg) => {
                fun.lemma_lifted_avoids(c);
                arg.lemma_lifted_avoids(c);
            },
        }
    }

    /// Lifting below a variable that does not occur moves that variable up
    /// by one.
    pub proof fn lemma_avoids_lift(self, j: int, c: int)
        requires
            self.avoids(j),
            c <= j,
        ensures
            self.shift(1, c).avoids(j + 1),
        decreases self,
    {
        match self {
            Lam::Var(_) => {},
            Lam::Abs(body, _) => {
                body.lemma_avoids_lift(j + 1, c + 1);
            },
            Lam::App(fun, arg) => {
                fun.lemma_avoids_lift(j, c);
                arg.lemma_avoids_lift(j, c);
            },
        }
    }

    /// Substituting for `j` a term without `j` removes `j`.
    pub proof fn lemma_subst_avoids(self, j: int, s: Lam)
        requires
            s.avoids(j),
            0 <= j,
        ensures
            self.subst(j, s).avoids(j),
        decreases self,
    {
        match self {
            Lam::Var(_) => {},
            Lam::Abs(body, _) => {
                s.lemma_avoids_lift(j, 0);
                body.lemma_subst_avoids(j + 1, s.shift(1, 0));
            },
            Lam::App(fun, arg) => {
                fun.lemma_subst_avoids(j, s);
                arg.lemma_subst_avoids(j, s);
            },
        }
    }

    /// Lowering at cutoff `c` a bounded term without the variable `c` fits:
    /// no index becomes negative.
    pub proof fn lemma_lower_fits(self, c: int, top: int, depth: int)
        requires
            self.bounded(top, depth),
            self.avoids(c),
            0 <= c,
            c + depth <= usize::MAX,
            top <= usize::MAX + 1,
        ensures
            self.shift_fits(-1, c),
            self.shift(-1, c).bounded(top, depth),
        decreases self,
    {
        match self {
            Lam::Var(_) => {},
            Lam::Abs(body, _) => {
                body.lemma_lower_fits(c + 1, top, depth - 1);
            },
            Lam::App(fun, arg) => {
                fun.lemma_lower_fits(c, top, depth - 1);
                arg.lemma_lower_fits(c, top, depth - 1);
            },
        }
    }

    /// Every step of the contraction of a redex that is in range fits, and
    /// the contractum has no negative index.
    pub proof fn lemma_contraction_fits(self)
        requires
            self.is_redex(),
            self.in_range(),
        ensures
            self.redex_arg().shift_fits(1, 0),
            self.redex_body().subst_fits(0, self.redex_arg().shift(1, 0)),
            self.redex_body().subst(0, self.redex_arg().shift(1, 0)).shift_fits(-1, 0),
            self.contract().bounded(2 * INDEX_LIMIT, 2 * INDEX_LIMIT),
    {
        let limit = INDEX_LIMIT as int;
        let body = self.redex_body();
        let arg = self.redex_arg();
        assert(body.bounded(limit, limit - 2) && arg.bounded(limit, limit - 1)) by {
            reveal_with_fuel(Lam::bounded, 3);
        }
        arg.lemma_lift_fits(1, 0, limit, limit - 1);
        let lifted = arg.shift(1, 0);
        body.lemma_subst_fits(0, lifted, limit, limit - 2, limit + 1, limit - 1, 2 * limit - 1);
        let filled = body.subst(0, lifted);
        arg.lemma_lifted_avoids(0);
        body.lemma_subst_avoids(0, lifted);
        filled.lemma_lower_fits(0, 2 * limit - 1, 2 * limit - 3);
        filled.shift(-1, 0).lemma_bounded_weaken(2 * limit - 1, 2 * limit - 3, 2 * limit, 2 * limit);
    }
}

} // verus!
