//! Laws of the reduction engine, stated over the mathematical terms.

use vstd::prelude::*;
use crate::eval::MAX_OPS;
use crate::lambda::Lam;

verus! {

impl Lam {
    /// The body of a redex with its variable `k` replaced by `arg`: said
    /// directly, without a detour through lifting and lowering. An index
    /// below `k` is bound within the body and stays; the index `k` gives
    /// way to `arg`, whose own free indices are raised by the `k`
    /// abstractions it now stands under; an index above `k` loses the
    /// abstraction that the contraction removes and drops by one.
    pub open spec fn instantiate(self, arg: Lam, k: int) -> Lam
        decreases self,
    {
        match self {
            Lam::Var(x) => if x == k {
                arg.shift(k, 0)
            } else if x > k {
                Lam::Var(x - 1)
            } else {
                self
            },
            Lam::Abs(body, label) => Lam::Abs(Box::new(body.instantiate(arg, k + 1)), label),
            Lam::App(fun, arg2) => Lam::App(
                Box::new(fun.instantiate(arg, k)),
                Box::new(arg2.instantiate(arg, k)),
            ),
        }
    }

    /// Lifting and then lowering by the same amount at the same cutoff
    /// gives the term back.
    pub proof fn lemma_shift_roundtrip(self, d: int, c: int)
        requires
            0 <= d,
        ensures
            self.shift(d, c).shift(-d, c) == self,
        decreases self,
    {
        match self {
            Lam::Var(_) => {},
            Lam::Abs(body, _) => {
                body.lemma_shift_roundtrip(d, c + 1);
            },
            Lam::App(fun, arg) => {
                fun.lemma_shift_roundtrip(d, c);
                arg.lemma_shift_roundtrip(d, c);
            },
        }
    }

    /// Two lifts at one cutoff add up.
    pub proof fn lemma_lift_lift(self, m: int, n: int, c: int)
        requires
            0 <= m,
            0 <= n,
        ensures
            self.shift(m, c).shift(n, c) == self.shift(m + n, c),
        decreases self,
    {
        match self {
            Lam::Var(_) => {},
            Lam::Abs(body, _) => {
                body.lemma_lift_lift(m, n, c + 1);
            },
            Lam::App(fun, arg) => {
                fun.lemma_lift_lift(m, n, c);
                arg.lemma_lift_lift(m, n, c);
            },
        }
    }

    /// Lowering by one, just above the indices that a lift left alone,
    /// takes one off the lift.
    pub proof fn lemma_lift_lower(self, k: int, c: int)
        requires
            0 <= k,
        ensures
            self.shift(k + 1, c).shift(-1, c + k) == self.shift(k, c),
        decreases self,
    {
        match self {
            Lam::Var(_) => {},
            Lam::Abs(body, _) => {
                body.lemma_lift_lower(k, c + 1);
            },
            Lam::App(fun, arg) => {
                fun.lemma_lift_lower(k, c);
                arg.lemma_lift_lower(k, c);
            },
        }
    }

    /// Substituting the lifted argument for variable `k` and lowering above
    /// `k` replaces `k` by the argument and takes one off every index
    /// above `k`.
    pub proof fn lemma_subst_lower_instantiates(self, arg: Lam, k: int)
        requires
            0 <= k,
        ensures
            self.subst(k, arg.shift(k + 1, 0)).shift(-1, k) == self.instantiate(arg, k),
        decreases self,
    {
        match self {
            Lam::Var(_) => {
                arg.lemma_lift_lower(k, 0);
            },
            Lam::Abs(body, _) => {
                arg.lemma_lift_lift(k + 1, 1, 0);
                body.lemma_subst_lower_instantiates(arg, k + 1);
            },
            Lam::App(fun, arg2) => {
                fun.lemma_subst_lower_instantiates(arg, k);
                arg2.lemma_subst_lower_instantiates(arg, k);
            },
        }
    }

    /// Contraction is correct: the contractum of `(λ. body) arg` is `body`
    /// with variable 0 replaced by `arg`, every other free index of `body`
    /// one lower, and the free indices of `arg` still naming what they
    /// named outside the redex.
    pub proof fn lemma_contract_instantiates(self)
        requires
            self.is_redex(),
        ensures
            self.contract() == self.redex_body().instantiate(self.redex_arg(), 0),
    {
        self.redex_body().lemma_subst_lower_instantiates(self.redex_arg(), 0);
    }

    /// What normalisation returns is normal, was paid for node by node, and
    /// left less budget than it was given.
    pub proof fn lemma_normalise_with_normal(self, budget: nat)
        requires
            self.normalise_with(budget) is Some,
        ensures
            self.normalise_with(budget).unwrap().0.is_normal(),
            self.normalise_with(budget).unwrap().0.size() + self.normalise_with(budget).unwrap().1
                <= budget,
        decreases budget,
    {
        let rest = (budget - 1) as nat;
        match self {
            Lam::Var(_) => {},
            Lam::Abs(body, _) => {
                body.lemma_normalise_with_normal(rest);
            },
            Lam::App(fun, arg) => {
                if self.is_redex() {
                    self.contract().lemma_normalise_with_normal(rest);
                } else {
                    fun.lemma_normalise_with_normal(rest);
                    let (f, left) = fun.normalise_with(rest).unwrap();
                    if f is Abs {
                        Lam::App(Box::new(f), arg).lemma_normalise_with_normal(left);
                    } else {
                        arg.lemma_normalise_with_normal(left);
                    }
                }
            },
        }
    }

    /// Normalising a normal term visits each of its nodes once and returns
    /// the term.
    pub proof fn lemma_normal_is_fixed(self, budget: nat)
        requires
            self.is_normal(),
            self.size() <= budget,
        ensures
            self.normalise_with(budget) == Some((self, (budget - self.size()) as nat)),
        decreases self,
    {
        let rest = (budget - 1) as nat;
        match self {
            Lam::Var(_) => {},
            Lam::Abs(body, _) => {
                body.lemma_normal_is_fixed(rest);
            },
            Lam::App(fun, arg) => {
                fun.lemma_normal_is_fixed(rest);
                arg.lemma_normal_is_fixed((rest - fun.size()) as nat);
            },
        }
    }

    /// Normalisation is idempotent: to normalise a normal form that was
    /// reached gives that normal form again.
    pub proof fn lemma_normalise_idempotent(self)
        requires
            self.normalise() is Some,
        ensures
            self.normalise().unwrap().normalise() == self.normalise(),
    {
        self.lemma_normalise_with_normal(MAX_OPS as nat);
        self.normalise().unwrap().lemma_normal_is_fixed(MAX_OPS as nat);
    }

    /// The budget that a normalisation leaves is below the budget it was
    /// given.
    pub proof fn lemma_budget_shrinks(self, budget: nat)
        requires
            self.normalise_with(budget) is Some,
        ensures
            self.normalise_with(budget).unwrap().1 < budget,
    {
        self.lemma_normalise_with_normal(budget);
    }

    /// The term after `k` steps of normal-order reduction, or after fewer
    /// if it is normal before.
    pub open spec fn outermost_run(self, k: nat) -> Lam
        decreases k,
    {
        if k == 0 {
            self
        } else {
            match self.outermost() {
                Some(next) => next.outermost_run((k - 1) as nat),
                None => self,
            }
        }
    }

    /// The term after `k` steps of applicative-order reduction, or after
    /// fewer if it is normal before.
    pub open spec fn innermost_run(self, k: nat) -> Lam
        decreases k,
    {
        if k == 0 {
            self
        } else {
            match self.innermost() {
                Some(next) => next.innermost_run((k - 1) as nat),
                None => self,
            }
        }
    }

    /// A step of normal-order reduction is a parallel reduction.
    pub proof fn lemma_outermost_is_par(self)
        requires
            self.outermost() is Some,
        ensures
            self.par(self.outermost().unwrap()),
        decreases self,
    {
        match self {
            Lam::Var(_) => {},
            Lam::Abs(body, _) => {
                body.lemma_outermost_is_par();
            },
            Lam::App(fun, arg) => {
                if self.is_redex() {
                    self.lemma_par_contract();
                } else if fun.outermost() is Some {
                    fun.lemma_outermost_is_par();
                    arg.lemma_par_refl();
                } else {
                    fun.lemma_par_refl();
                    arg.lemma_outermost_is_par();
                }
            },
        }
    }

    /// A step of applicative-order reduction is a parallel reduction.
    pub proof fn lemma_innermost_is_par(self)
        requires
            self.innermost() is Some,
        ensures
            self.par(self.innermost().unwrap()),
        decreases self,
    {
        match self {
            Lam::Var(_) => {},
            Lam::Abs(body, _) => {
                body.lemma_innermost_is_par();
            },
            Lam::App(fun, arg) => {
                if fun.innermost() is Some {
                    fun.lemma_innermost_is_par();
                    arg.lemma_par_refl();
                } else if arg.innermost() is Some {
                    fun.lemma_par_refl();
                    arg.lemma_innermost_is_par();
                } else {
                    self.lemma_par_contract();
                }
            },
        }
    }

    /// The contraction of the redex of a given number is a parallel
    /// reduction.
    pub proof fn lemma_reduce_at_is_par(self, i: int)
        requires
            self.reduce_at(i) is Some,
        ensures
            self.par(self.reduce_at(i).unwrap()),
        decreases self,
    {
        match self {
            Lam::Var(_) => {},
            Lam::Abs(body, _) => {
                body.lemma_reduce_at_is_par(i);
            },
            Lam::App(fun, arg) => {
                if self.is_redex() && i == 0 {
                    self.lemma_par_contract();
                } else {
                    let k = if self.is_redex() {
                        i - 1
                    } else {
                        i
                    };
                    if k < fun.redex_count() {
                        fun.lemma_reduce_at_is_par(k);
                        arg.lemma_par_refl();
                    } else {
                        fun.lemma_par_refl();
                        arg.lemma_reduce_at_is_par(k - fun.redex_count());
                    }
                }
            },
        }
    }

    /// A run of normal-order reduction is a reduction.
    pub proof fn lemma_outermost_run_steps(self, k: nat)
        ensures
            self.par_steps(self.outermost_run(k), k),
        decreases k,
    {
        if k > 0 {
            match self.outermost() {
                Some(next) => {
                    self.lemma_outermost_is_par();
                    next.lemma_outermost_run_steps((k - 1) as nat);
                    assert(self.par(next) && next.par_steps(self.outermost_run(k), (k - 1) as nat));
                },
                None => {
                    self.lemma_steps_pad(self, 0, k);
                },
            }
        }
    }

    /// A run of applicative-order reduction is a reduction.
    pub proof fn lemma_innermost_run_steps(self, k: nat)
        ensures
            self.par_steps(self.innermost_run(k), k),
        decreases k,
    {
        if k > 0 {
            match self.innermost() {
                Some(next) => {
                    self.lemma_innermost_is_par();
                    next.lemma_innermost_run_steps((k - 1) as nat);
                    assert(self.par(next) && next.par_steps(self.innermost_run(k), (k - 1) as nat));
                },
                None => {
                    self.lemma_steps_pad(self, 0, k);
                },
            }
        }
    }

    /// Normalisation is a reduction: it takes no more steps than it uses
    /// of its budget.
    pub proof fn lemma_normalise_with_steps(self, budget: nat)
        requires
            self.normalise_with(budget) is Some,
        ensures
            self.normalise_with(budget).unwrap().1 <= budget,
            self.par_steps(
                self.normalise_with(budget).unwrap().0,
                (budget - self.normalise_with(budget).unwrap().1) as nat,
            ),
        decreases budget,
    {
        let rest = (budget - 1) as nat;
        let (normal, left) = self.normalise_with(budget).unwrap();
        self.lemma_normalise_with_normal(budget);
        let steps = (budget - left) as nat;
        match self {
            Lam::Var(_) => {
                self.lemma_steps_pad(self, 0, steps);
            },
            Lam::Abs(body, label) => {
                body.lemma_normalise_with_steps(rest);
                let inner = body.normalise_with(rest).unwrap().0;
                body.lemma_steps_abs(inner, label, (rest - left) as nat);
                self.lemma_steps_pad(normal, (rest - left) as nat, steps);
            },
            Lam::App(fun, arg) => {
                if self.is_redex() {
                    self.lemma_par_contract();
                    self.contract().lemma_normalise_with_steps(rest);
                    assert(self.par(self.contract()) && self.contract().par_steps(
                        normal,
                        (steps - 1) as nat,
                    ));
                } else {
                    fun.lemma_normalise_with_steps(rest);
                    fun.lemma_normalise_with_normal(rest);
                    let (f, between) = fun.normalise_with(rest).unwrap();
                    let first = (rest - between) as nat;
                    let halfway = Lam::App(Box::new(f), arg);
                    arg.lemma_steps_pad(*arg, 0, first);
                    fun.lemma_steps_app(f, *arg, *arg, first);
                    if f is Abs {
                        halfway.lemma_normalise_with_steps(between);
                    } else {
                        arg.lemma_normalise_with_steps(between);
                        let a = arg.normalise_with(between).unwrap().0;
                        f.lemma_steps_pad(f, 0, (between - left) as nat);
                        f.lemma_steps_app(f, *arg, a, (between - left) as nat);
                    }
                    self.lemma_steps_trans(halfway, normal, first, (between - left) as nat);
                    self.lemma_steps_pad(normal, (rest - left) as nat, steps);
                }
            },
        }
    }

    /// Normal-order reduction agrees with normalisation: where
    /// normalisation succeeds, a run of normal-order steps that ends in a
    /// normal term ends in the normal form that normalisation gives.
    pub proof fn lemma_outermost_agrees_with_normalise(self, k: nat)
        requires
            self.normalise() is Some,
            self.outermost_run(k).is_normal(),
        ensures
            self.outermost_run(k) == self.normalise().unwrap(),
    {
        let budget = MAX_OPS as nat;
        let (normal, left) = self.normalise_with(budget).unwrap();
        self.lemma_normalise_with_normal(budget);
        self.lemma_normalise_with_steps(budget);
        self.lemma_outermost_run_steps(k);
        self.lemma_normal_form_unique(self.outermost_run(k), k, normal, (budget - left) as nat);
    }

    /// Applicative-order reduction agrees with normalisation: where
    /// normalisation succeeds, a run of applicative-order steps that ends
    /// in a normal term ends in the normal form that normalisation gives.
    pub proof fn lemma_innermost_agrees_with_normalise(self, k: nat)
        requires
            self.normalise() is Some,
            self.innermost_run(k).is_normal(),
        ensures
            self.innermost_run(k) == self.normalise().unwrap(),
    {
        let budget = MAX_OPS as nat;
        let (normal, left) = self.normalise_with(budget).unwrap();
        self.lemma_normalise_with_normal(budget);
        self.lemma_normalise_with_steps(budget);
        self.lemma_innermost_run_steps(k);
        self.lemma_normal_form_unique(self.innermost_run(k), k, normal, (budget - left) as nat);
    }
}

} // verus!
