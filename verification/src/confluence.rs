//! Confluence of reduction, by parallel reduction and complete
//! developments, and what follows from it: a term has at most one normal
//! form, so every strategy that reaches one reaches the same.

use vstd::prelude::*;
use crate::lambda::Lam;

verus! {

impl Lam {
    /// The term with `s` in place of the variable `k`, and every index above
    /// `k` one lower. Under an abstraction `s` is lifted by one.
    pub open spec fn plug(self, s: Lam, k: int) -> Lam
        decreases self,
    {
        match self {
            Lam::Var(x) => if x == k {
                s
            } else if x > k {
                Lam::Var(x - 1)
            } else {
                self
            },
            Lam::Abs(body, label) => Lam::Abs(Box::new(body.plug(s.shift(1, 0), k + 1)), label),
            Lam::App(fun, arg) => Lam::App(Box::new(fun.plug(s, k)), Box::new(arg.plug(s, k))),
        }
    }

    /// A shift by nothing changes nothing.
    pub proof fn lemma_shift_zero(self, c: int)
        ensures
            self.shift(0, c) == self,
        decreases self,
    {
        match self {
            Lam::Var(_) => {},
            Lam::Abs(body, _) => {
                body.lemma_shift_zero(c + 1);
            },
            Lam::App(fun, arg) => {
                fun.lemma_shift_zero(c);
                arg.lemma_shift_zero(c);
            },
        }
    }

    /// Two lifts by one change places.
    pub proof fn lemma_lift_commute(self, i: int, k: int)
        requires
            i <= k,
        ensures
            self.shift(1, i).shift(1, k + 1) == self.shift(1, k).shift(1, i),
        decreases self,
    {
        match self {
            Lam::Var(_) => {},
            Lam::Abs(body, _) => {
                body.lemma_lift_commute(i + 1, k + 1);
            },
            Lam::App(fun, arg) => {
                fun.lemma_lift_commute(i, k);
                arg.lemma_lift_commute(i, k);
            },
        }
    }

    /// A lift above the plugged variable moves inside the plug.
    pub proof fn lemma_lift_plug(self, s: Lam, i: int, j: int)
        requires
            0 <= j <= i,
        ensures
            self.plug(s, j).shift(1, i) == self.shift(1, i + 1).plug(s.shift(1, i), j),
        decreases self,
    {
        match self {
            Lam::Var(_) => {},
            Lam::Abs(body, _) => {
                body.lemma_lift_plug(s.shift(1, 0), i + 1, j + 1);
                s.lemma_lift_commute(0, i);
            },
            Lam::App(fun, arg) => {
                fun.lemma_lift_plug(s, i, j);
                arg.lemma_lift_plug(s, i, j);
            },
        }
    }

    /// A lift below the plugged variable moves inside the plug.
    pub proof fn lemma_lift_plug_below(self, s: Lam, i: int, j: int)
        requires
            0 <= i <= j,
        ensures
            self.plug(s, j).shift(1, i) == self.shift(1, i).plug(s.shift(1, i), j + 1),
        decreases self,
    {
        match self {
            Lam::Var(_) => {},
            Lam::Abs(body, _) => {
                body.lemma_lift_plug_below(s.shift(1, 0), i + 1, j + 1);
                s.lemma_lift_commute(0, i);
            },
            Lam::App(fun, arg) => {
                fun.lemma_lift_plug_below(s, i, j);
                arg.lemma_lift_plug_below(s, i, j);
            },
        }
    }

    /// To plug the variable that a lift has made room for undoes the lift.
    pub proof fn lemma_plug_lift(self, s: Lam, k: int)
        ensures
            self.shift(1, k).plug(s, k) == self,
        decreases self,
    {
        match self {
            Lam::Var(_) => {},
            Lam::Abs(body, _) => {
                body.lemma_plug_lift(s.shift(1, 0), k + 1);
            },
            Lam::App(fun, arg) => {
                fun.lemma_plug_lift(s, k);
                arg.lemma_plug_lift(s, k);
            },
        }
    }

    /// The substitution lemma: two plugs change places.
    pub proof fn lemma_plug_plug(self, u: Lam, v: Lam, i: int, j: int)
        requires
            0 <= i <= j,
        ensures
            self.plug(v.shift(1, i), j + 1).plug(u.plug(v, j), i) == self.plug(u, i).plug(v, j),
        decreases self,
    {
        match self {
            Lam::Var(x) => {
                if x == j + 1 {
                    v.lemma_plug_lift(u.plug(v, j), i);
                }
            },
            Lam::Abs(body, _) => {
                body.lemma_plug_plug(u.shift(1, 0), v.shift(1, 0), i + 1, j + 1);
                v.lemma_lift_commute(0, i);
                u.lemma_lift_plug_below(v, 0, j);
            },
            Lam::App(fun, arg) => {
                fun.lemma_plug_plug(u, v, i, j);
                arg.lemma_plug_plug(u, v, i, j);
            },
        }
    }

    /// `instantiate` is a plug of the argument, lifted to where it goes.
    pub proof fn lemma_instantiate_plugs(self, arg: Lam, k: int)
        requires
            0 <= k,
        ensures
            self.instantiate(arg, k) == self.plug(arg.shift(k, 0), k),
        decreases self,
    {
        match self {
            Lam::Var(_) => {},
            Lam::Abs(body, _) => {
                body.lemma_instantiate_plugs(arg, k + 1);
                arg.lemma_lift_lift(k, 1, 0);
            },
            Lam::App(fun, arg2) => {
                fun.lemma_instantiate_plugs(arg, k);
                arg2.lemma_instantiate_plugs(arg, k);
            },
        }
    }

    /// The contractum of a redex is its body with the argument plugged in.
    pub proof fn lemma_contract_plugs(self)
        requires
            self.is_redex(),
        ensures
            self.contract() == self.redex_body().plug(self.redex_arg(), 0),
    {
        self.lemma_contract_instantiates();
        self.redex_body().lemma_instantiate_plugs(self.redex_arg(), 0);
        self.redex_arg().lemma_shift_zero(0);
    }

    /// Parallel reduction: `u` comes from the term by contracting any
    /// number of the redexes that are there, inner ones first. The parts
    /// reduce in parallel; a redex may then be contracted on what its body
    /// and its argument have become.
    pub open spec fn par(self, u: Lam) -> bool
        decreases self,
    {
        match self {
            Lam::Var(_) => u == self,
            Lam::Abs(body, label) => match u {
                Lam::Abs(body2, label2) => label2 == label && body.par(*body2),
                _ => false,
            },
            Lam::App(fun, arg) => (match u {
                Lam::App(fun2, arg2) => fun.par(*fun2) && arg.par(*arg2),
                _ => false,
            }) || (match *fun {
                Lam::Abs(body, _) => exists|body2: Lam, arg2: Lam|
                    #![trigger body2.plug(arg2, 0)]
                    body.par(body2) && arg.par(arg2) && u == body2.plug(arg2, 0),
                _ => false,
            }),
        }
    }

    /// The complete development: every redex that is there is contracted,
    /// inner ones first.
    pub open spec fn dev(self) -> Lam
        decreases self,
    {
        match self {
            Lam::Var(_) => self,
            Lam::Abs(body, label) => Lam::Abs(Box::new(body.dev()), label),
            Lam::App(fun, arg) => match *fun {
                Lam::Abs(body, _) => body.dev().plug(arg.dev(), 0),
                _ => Lam::App(Box::new(fun.dev()), Box::new(arg.dev())),
            },
        }
    }

    /// A term reduces to itself in parallel: no redex need be contracted.
    pub proof fn lemma_par_refl(self)
        ensures
            self.par(self),
        decreases self,
    {
        match self {
            Lam::Var(_) => {},
            Lam::Abs(body, _) => {
                body.lemma_par_refl();
            },
            Lam::App(fun, arg) => {
                fun.lemma_par_refl();
                arg.lemma_par_refl();
            },
        }
    }

    /// To contract a redex is a parallel reduction.
    pub proof fn lemma_par_contract(self)
        requires
            self.is_redex(),
        ensures
            self.par(self.contract()),
    {
        self.lemma_contract_plugs();
        self.redex_body().lemma_par_refl();
        self.redex_arg().lemma_par_refl();
        assert(self.contract() == self.redex_body().plug(self.redex_arg(), 0));
    }

    /// Parallel reduction goes through a lift.
    pub proof fn lemma_par_lift(self, u: Lam, c: int)
        requires
            self.par(u),
            0 <= c,
        ensures
            self.shift(1, c).par(u.shift(1, c)),
        decreases self,
    {
        match self {
            Lam::Var(_) => {},
            Lam::Abs(body, _) => {
                body.lemma_par_lift(u.abs_body(), c + 1);
            },
            Lam::App(fun, arg) => {
                if u matches Lam::App(fun2, arg2) && fun.par(*fun2) && arg.par(*arg2) {
                    fun.lemma_par_lift(u.app_fun(), c);
                    arg.lemma_par_lift(u.app_arg(), c);
                } else {
                    let body = fun.abs_body();
                    let (body2, arg2) = choose|body2: Lam, arg2: Lam|
                        #![trigger body2.plug(arg2, 0)]
                        body.par(body2) && arg.par(arg2) && u == body2.plug(arg2, 0);
                    body.lemma_par_lift(body2, c + 1);
                    arg.lemma_par_lift(arg2, c);
                    body2.lemma_lift_plug(arg2, c, 0);
                    assert(u.shift(1, c) == body2.shift(1, c + 1).plug(arg2.shift(1, c), 0));
                }
            },
        }
    }

    /// Parallel reduction goes through a plug, on both sides at once.
    pub proof fn lemma_par_plug(self, u: Lam, s: Lam, s2: Lam, k: int)
        requires
            self.par(u),
            s.par(s2),
            0 <= k,
        ensures
            self.plug(s, k).par(u.plug(s2, k)),
        decreases self,
    {
        match self {
            Lam::Var(x) => {
                if x != k {
                    self.plug(s, k).lemma_par_refl();
                }
            },
            Lam::Abs(body, _) => {
                s.lemma_par_lift(s2, 0);
                body.lemma_par_plug(u.abs_body(), s.shift(1, 0), s2.shift(1, 0), k + 1);
            },
            Lam::App(fun, arg) => {
                if u matches Lam::App(fun2, arg2) && fun.par(*fun2) && arg.par(*arg2) {
                    fun.lemma_par_plug(u.app_fun(), s, s2, k);
                    arg.lemma_par_plug(u.app_arg(), s, s2, k);
                } else {
                    let body = fun.abs_body();
                    let (body2, arg2) = choose|body2: Lam, arg2: Lam|
                        #![trigger body2.plug(arg2, 0)]
                        body.par(body2) && arg.par(arg2) && u == body2.plug(arg2, 0);
                    s.lemma_par_lift(s2, 0);
                    body.lemma_par_plug(body2, s.shift(1, 0), s2.shift(1, 0), k + 1);
                    arg.lemma_par_plug(arg2, s, s2, k);
                    body2.lemma_plug_plug(arg2, s2, 0, k);
                    assert(u.plug(s2, k) == body2.plug(s2.shift(1, 0), k + 1).plug(
                        arg2.plug(s2, k),
                        0,
                    ));
                }
            },
        }
    }

    /// Whatever a term reduces to in parallel reduces on to its complete
    /// development.
    pub proof fn lemma_par_dev(self, u: Lam)
        requires
            self.par(u),
        ensures
            u.par(self.dev()),
        decreases self,
    {
        match self {
            Lam::Var(_) => {},
            Lam::Abs(body, _) => {
                body.lemma_par_dev(u.abs_body());
            },
            Lam::App(fun, arg) => {
                if u matches Lam::App(fun2, arg2) && fun.par(*fun2) && arg.par(*arg2) {
                    let fun2 = u.app_fun();
                    let arg2 = u.app_arg();
                    arg.lemma_par_dev(arg2);
                    match *fun {
                        Lam::Abs(body, _) => {
                            let body2 = fun2.abs_body();
                            body.lemma_par_dev(body2);
                            assert(self.dev() == body.dev().plug(arg.dev(), 0));
                        },
                        _ => {
                            fun.lemma_par_dev(fun2);
                        },
                    }
                } else {
                    let body = fun.abs_body();
                    let (body2, arg2) = choose|body2: Lam, arg2: Lam|
                        #![trigger body2.plug(arg2, 0)]
                        body.par(body2) && arg.par(arg2) && u == body2.plug(arg2, 0);
                    body.lemma_par_dev(body2);
                    arg.lemma_par_dev(arg2);
                    body2.lemma_par_plug(body.dev(), arg2, arg.dev(), 0);
                }
            },
        }
    }

    /// Complete development is monotone for parallel reduction.
    pub proof fn lemma_dev_monotone(self, u: Lam)
        requires
            self.par(u),
        ensures
            self.dev().par(u.dev()),
    {
        self.lemma_par_dev(u);
        u.lemma_par_dev(self.dev());
    }

    /// A normal term reduces to nothing but itself.
    pub proof fn lemma_par_normal(self, u: Lam)
        requires
            self.par(u),
            self.is_normal(),
        ensures
            u == self,
        decreases self,
    {
        match self {
            Lam::Var(_) => {},
            Lam::Abs(body, _) => {
                body.lemma_par_normal(u.abs_body());
            },
            Lam::App(fun, arg) => {
                fun.lemma_par_normal(u.app_fun());
                arg.lemma_par_normal(u.app_arg());
            },
        }
    }

    /// Whether `n` parallel reductions in a row lead from the term to `u`.
    pub open spec fn par_steps(self, u: Lam, n: nat) -> bool
        decreases n,
    {
        if n == 0 {
            u == self
        } else {
            exists|mid: Lam| #[trigger] self.par(mid) && mid.par_steps(u, (n - 1) as nat)
        }
    }

    /// The complete development, `n` times over.
    pub open spec fn dev_times(self, n: nat) -> Lam
        decreases n,
    {
        if n == 0 {
            self
        } else {
            self.dev().dev_times((n - 1) as nat)
        }
    }

    /// One more parallel reduction at the end.
    pub proof fn lemma_steps_append(self, u: Lam, v: Lam, n: nat)
        requires
            self.par_steps(u, n),
            u.par(v),
        ensures
            self.par_steps(v, n + 1),
        decreases n,
    {
        if n == 0 {
            assert(self.par(v) && v.par_steps(v, 0));
        } else {
            let mid = choose|mid: Lam| #[trigger] self.par(mid) && mid.par_steps(u, (n - 1) as nat);
            mid.lemma_steps_append(u, v, (n - 1) as nat);
            assert(self.par(mid) && mid.par_steps(v, n));
        }
    }

    /// A reduction may take more steps than it needs.
    pub proof fn lemma_steps_pad(self, u: Lam, n: nat, m: nat)
        requires
            self.par_steps(u, n),
            n <= m,
        ensures
            self.par_steps(u, m),
        decreases m - n,
    {
        if n < m {
            u.lemma_par_refl();
            self.lemma_steps_append(u, u, n);
            self.lemma_steps_pad(u, n + 1, m);
        }
    }

    /// Reductions in a row make one reduction.
    pub proof fn lemma_steps_trans(self, u: Lam, v: Lam, n: nat, m: nat)
        requires
            self.par_steps(u, n),
            u.par_steps(v, m),
        ensures
            self.par_steps(v, n + m),
        decreases n,
    {
        if n > 0 {
            let mid = choose|mid: Lam| #[trigger] self.par(mid) && mid.par_steps(u, (n - 1) as nat);
            mid.lemma_steps_trans(u, v, (n - 1) as nat, m);
            assert(self.par(mid) && mid.par_steps(v, (n + m - 1) as nat));
        }
    }

    /// A reduction of the body is a reduction of the abstraction.
    pub proof fn lemma_steps_abs(self, u: Lam, label: Seq<char>, n: nat)
        requires
            self.par_steps(u, n),
        ensures
            Lam::Abs(Box::new(self), label).par_steps(Lam::Abs(Box::new(u), label), n),
        decreases n,
    {
        if n > 0 {
            let mid = choose|mid: Lam| #[trigger] self.par(mid) && mid.par_steps(u, (n - 1) as nat);
            mid.lemma_steps_abs(u, label, (n - 1) as nat);
            let first = Lam::Abs(Box::new(self), label);
            let second = Lam::Abs(Box::new(mid), label);
            assert(first.par(second) && second.par_steps(
                Lam::Abs(Box::new(u), label),
                (n - 1) as nat,
            ));
        }
    }

    /// Reductions of both sides are a reduction of the application.
    pub proof fn lemma_steps_app(self, u: Lam, arg: Lam, arg2: Lam, n: nat)
        requires
            self.par_steps(u, n),
            arg.par_steps(arg2, n),
        ensures
            Lam::App(Box::new(self), Box::new(arg)).par_steps(
                Lam::App(Box::new(u), Box::new(arg2)),
                n,
            ),
        decreases n,
    {
        if n > 0 {
            let mid = choose|mid: Lam| #[trigger] self.par(mid) && mid.par_steps(u, (n - 1) as nat);
            let amid = choose|amid: Lam|
                #[trigger] arg.par(amid) && amid.par_steps(arg2, (n - 1) as nat);
            mid.lemma_steps_app(u, amid, arg2, (n - 1) as nat);
            let first = Lam::App(Box::new(self), Box::new(arg));
            let second = Lam::App(Box::new(mid), Box::new(amid));
            assert(first.par(second) && second.par_steps(
                Lam::App(Box::new(u), Box::new(arg2)),
                (n - 1) as nat,
            ));
        }
    }

    /// Repeated complete development is monotone for parallel reduction.
    pub proof fn lemma_dev_times_monotone(self, u: Lam, n: nat)
        requires
            self.par(u),
        ensures
            self.dev_times(n).par(u.dev_times(n)),
        decreases n,
    {
        if n > 0 {
            self.lemma_dev_monotone(u);
            self.dev().lemma_dev_times_monotone(u.dev(), (n - 1) as nat);
        }
    }

    /// Whatever a term reduces to in `n` steps reduces on, in `n` steps, to
    /// the `n`-fold complete development of the term.
    pub proof fn lemma_steps_dev(self, u: Lam, n: nat)
        requires
            self.par_steps(u, n),
        ensures
            u.par_steps(self.dev_times(n), n),
        decreases n,
    {
        if n > 0 {
            let mid = choose|mid: Lam| #[trigger] self.par(mid) && mid.par_steps(u, (n - 1) as nat);
            mid.lemma_steps_dev(u, (n - 1) as nat);
            self.lemma_par_dev(mid);
            mid.lemma_dev_times_monotone(self.dev(), (n - 1) as nat);
            u.lemma_steps_append(mid.dev_times((n - 1) as nat), self.dev_times(n), (n - 1) as nat);
        }
    }

    /// Reduction is confluent: two reductions of one term can be continued
    /// to a common term.
    pub proof fn lemma_confluent(self, u: Lam, n: nat, v: Lam, m: nat) -> (meet: Lam)
        requires
            self.par_steps(u, n),
            self.par_steps(v, m),
        ensures
            u.par_steps(meet, n + m),
            v.par_steps(meet, n + m),
    {
        self.lemma_steps_pad(u, n, n + m);
        self.lemma_steps_pad(v, m, n + m);
        self.lemma_steps_dev(u, n + m);
        self.lemma_steps_dev(v, n + m);
        self.dev_times(n + m)
    }

    /// A normal term stays what it is, however many steps it is given.
    pub proof fn lemma_steps_normal(self, u: Lam, n: nat)
        requires
            self.par_steps(u, n),
            self.is_normal(),
        ensures
            u == self,
        decreases n,
    {
        if n > 0 {
            let mid = choose|mid: Lam| #[trigger] self.par(mid) && mid.par_steps(u, (n - 1) as nat);
            self.lemma_par_normal(mid);
            mid.lemma_steps_normal(u, (n - 1) as nat);
        }
    }

    /// A term has at most one normal form.
    pub proof fn lemma_normal_form_unique(self, u: Lam, n: nat, v: Lam, m: nat)
        requires
            self.par_steps(u, n),
            self.par_steps(v, m),
            u.is_normal(),
            v.is_normal(),
        ensures
            u == v,
    {
        let meet = self.lemma_confluent(u, n, v, m);
        u.lemma_steps_normal(meet, n + m);
        v.lemma_steps_normal(meet, n + m);
    }
}

} // verus!
