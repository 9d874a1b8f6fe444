//! What the single-step strategies find: each finds a redex exactly when
//! there is one, and the indexed strategy exactly the redexes there are.

use vstd::prelude::*;
use crate::lambda::Lam;

verus! {

impl Lam {
    /// The parts of a term that is in range are in range.
    pub proof fn lemma_parts_in_range(self)
        requires
            self.in_range(),
        ensures
            self matches Lam::Abs(body, _) ==> body.in_range(),
            self matches Lam::App(fun, arg) ==> fun.in_range() && arg.in_range(),
    {
        let limit = crate::eval::INDEX_LIMIT as int;
        match self {
            Lam::Var(_) => {},
            Lam::Abs(body, _) => {
                body.lemma_bounded_weaken(limit, limit - 1, limit, limit);
            },
            Lam::App(fun, arg) => {
                fun.lemma_bounded_weaken(limit, limit - 1, limit, limit);
                arg.lemma_bounded_weaken(limit, limit - 1, limit, limit);
            },
        }
    }

    /// In a term that is in range every redex is in range.
    pub proof fn lemma_in_range_redexes(self)
        requires
            self.in_range(),
        ensures
            self.redexes_in_range(),
        decreases self,
    {
        self.lemma_parts_in_range();
        match self {
            Lam::Var(_) => {},
            Lam::Abs(body, _) => {
                body.lemma_in_range_redexes();
            },
            Lam::App(fun, arg) => {
                fun.lemma_in_range_redexes();
                arg.lemma_in_range_redexes();
            },
        }
    }

    /// A normal term has no redex out of range.
    pub proof fn lemma_normal_redexes(self)
        requires
            self.is_normal(),
        ensures
            self.redexes_in_range(),
        decreases self,
    {
        match self {
            Lam::Var(_) => {},
            Lam::Abs(body, _) => {
                body.lemma_normal_redexes();
            },
            Lam::App(fun, arg) => {
                fun.lemma_normal_redexes();
                arg.lemma_normal_redexes();
            },
        }
    }

    /// Normal-order reduction makes a step exactly when the term is not
    /// normal.
    pub proof fn lemma_outermost_finds(self)
        ensures
            self.outermost() is None <==> self.is_normal(),
        decreases self,
    {
        match self {
            Lam::Var(_) => {},
            Lam::Abs(body, _) => {
                body.lemma_outermost_finds();
            },
            Lam::App(fun, arg) => {
                fun.lemma_outermost_finds();
                arg.lemma_outermost_finds();
            },
        }
    }

    /// Applicative-order reduction makes a step exactly when the term is
    /// not normal.
    pub proof fn lemma_innermost_finds(self)
        ensures
            self.innermost() is None <==> self.is_normal(),
        decreases self,
    {
        match self {
            Lam::Var(_) => {},
            Lam::Abs(body, _) => {
                body.lemma_innermost_finds();
            },
            Lam::App(fun, arg) => {
                fun.lemma_innermost_finds();
                arg.lemma_innermost_finds();
            },
        }
    }

    /// A term with `k` redexes has a redex number `i` for `0 <= i < k` and
    /// for no other `i`.
    pub proof fn lemma_reduce_at_finds(self, i: int)
        ensures
            self.reduce_at(i) is Some <==> 0 <= i < self.redex_count(),
        decreases self,
    {
        match self {
            Lam::Var(_) => {},
            Lam::Abs(body, _) => {
                body.lemma_reduce_at_finds(i);
            },
            Lam::App(fun, arg) => {
                let k = if self.is_redex() {
                    i - 1
                } else {
                    i
                };
                fun.lemma_reduce_at_finds(k);
                arg.lemma_reduce_at_finds(k - fun.redex_count());
            },
        }
    }

    /// Normal-order reduction contracts the redex that comes first in
    /// pre-order.
    pub proof fn lemma_outermost_is_first(self)
        ensures
            self.outermost() == self.reduce_at(0),
        decreases self,
    {
        match self {
            Lam::Var(_) => {},
            Lam::Abs(body, _) => {
                body.lemma_outermost_is_first();
            },
            Lam::App(fun, arg) => {
                fun.lemma_outermost_is_first();
                arg.lemma_outermost_is_first();
                fun.lemma_outermost_finds();
            },
        }
    }
}

} // verus!
