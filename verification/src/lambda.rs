//! The term model: the executable [`Term`], the mathematical [`Lam`] it
//! stands for, and the constructors.

use vstd::prelude::*;

verus! {

/// A lambda term in de Bruijn notation.
///
/// `Var(i)` refers to the binder that is `i` abstractions up from the
/// occurrence; an index that reaches past every enclosing abstraction is a
/// free variable. The string of an abstraction is a display label and plays
/// no part in reduction.
#[derive(Debug, PartialEq, Eq)]
pub enum Term {
    Var(usize),
    Abs(Box<Term>, String),
    App(Box<Term>, Box<Term>),
}

/// The mathematical lambda term: indices are unbounded integers and labels
/// are sequences of characters.
pub enum Lam {
    Var(int),
    Abs(Box<Lam>, Seq<char>),
    App(Box<Lam>, Box<Lam>),
}

impl Term {
    /// The mathematical term that this term stands for.
    pub open spec fn model(self) -> Lam
        decreases self,
    {
        match self {
            Term::Var(x) => Lam::Var(x as int),
            Term::Abs(body, label) => Lam::Abs(Box::new(body.model()), label@),
            Term::App(fun, arg) => Lam::App(Box::new(fun.model()), Box::new(arg.model())),
        }
    }
}

impl View for Term {
    type V = Lam;

    open spec fn view(&self) -> Lam {
        self.model()
    }
}

impl DeepView for Term {
    type V = Lam;

    open spec fn deep_view(&self) -> Lam {
        self.model()
    }
}

impl Clone for Term {
    fn clone(&self) -> (r: Self)
        ensures
            r == *self,
        decreases self,
    {
        match self {
            Term::Var(x) => Term::Var(*x),
            Term::Abs(body, label) => Term::Abs(Box::new((**body).clone()), label.clone()),
            Term::App(fun, arg) => Term::App(
                Box::new((**fun).clone()),
                Box::new((**arg).clone()),
            ),
        }
    }
}

impl Term {
    /// The variable with index `x`.
    pub fn make_var(x: usize) -> (r: Term)
        ensures
            r == Term::Var(x),
    {
        Term::Var(x)
    }

    /// The abstraction of `t`, labelled `lab`.
    pub fn make_abs(t: Term, lab: &str) -> (r: Term)
        ensures
            r@ == Lam::Abs(Box::new(t@), lab@),
            r matches Term::Abs(body, _) && *body == t,
    {
        Term::Abs(Box::new(t), lab.to_owned())
    }

    /// The application of `t1` to `t2`.
    pub fn make_app(t1: Term, t2: Term) -> (r: Term)
        ensures
            r == Term::App(Box::new(t1), Box::new(t2)),
    {
        Term::App(Box::new(t1), Box::new(t2))
    }

    /// The application of `t1` to a copy of `t2`.
    pub fn remake_app_lhs(t1: Term, t2: &Box<Term>) -> (r: Term)
        ensures
            r == Term::App(Box::new(t1), *t2),
    {
        Term::App(Box::new(t1), Box::new((**t2).clone()))
    }

    /// The application of a copy of `t1` to `t2`.
    pub fn remake_app_rhs(t1: &Box<Term>, t2: Term) -> (r: Term)
        ensures
            r == Term::App(*t1, Box::new(t2)),
    {
        Term::App(Box::new((**t1).clone()), Box::new(t2))
    }

    /// Whether the term is an abstraction.
    pub fn is_abs(&self) -> (r: bool)
        ensures
            r == (self is Abs),
            r == self@.is_abs(),
    {
        if let Term::Abs(_, _) = self {
            true
        } else {
            false
        }
    }

    /// Whether the term is a redex: an application whose function side is
    /// an abstraction.
    pub fn is_beta_redex(&self) -> (r: bool)
        ensures
            r == self@.is_redex(),
    {
        if let Term::App(t1, _) = self {
            t1.is_abs()
        } else {
            false
        }
    }
}

impl Lam {
    /// Whether the term is an abstraction.
    pub open spec fn is_abs(self) -> bool {
        self is Abs
    }

    /// Whether the term is a redex: an application of an abstraction.
    pub open spec fn is_redex(self) -> bool {
        self matches Lam::App(fun, _) && *fun is Abs
    }

    /// The body of an abstraction.
    pub open spec fn abs_body(self) -> Lam
        recommends
            self is Abs,
    {
        match self {
            Lam::Abs(body, _) => *body,
            _ => self,
        }
    }

    /// The function side of an application.
    pub open spec fn app_fun(self) -> Lam
        recommends
            self is App,
    {
        match self {
            Lam::App(fun, _) => *fun,
            _ => self,
        }
    }

    /// The argument side of an application.
    pub open spec fn app_arg(self) -> Lam
        recommends
            self is App,
    {
        match self {
            Lam::App(_, arg) => *arg,
            _ => self,
        }
    }
}

} // verus!
