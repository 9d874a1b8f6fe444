//! Pretty-printing of terms, with bare indices or with names.

use vstd::prelude::*;
use vstd::string::StringExecFns;
use crate::lambda::Lam;
use crate::lambda::Term;

verus! {

/// Where a term stands in the term around it.
enum Pos {
    Root,
    Left,
    Right,
}

/// The decimal digit `d` as text.
pub open spec fn digit(d: nat) -> Seq<char> {
    if d == 0 {
        "0"@
    } else if d == 1 {
        "1"@
    } else if d == 2 {
        "2"@
    } else if d == 3 {
        "3"@
    } else if d == 4 {
        "4"@
    } else if d == 5 {
        "5"@
    } else if d == 6 {
        "6"@
    } else if d == 7 {
        "7"@
    } else if d == 8 {
        "8"@
    } else {
        "9"@
    }
}

/// The number `n` in decimal, without leading zeros.
pub open spec fn decimal(n: nat) -> Seq<char>
    decreases n,
{
    if n < 10 {
        digit(n)
    } else {
        decimal(n / 10) + digit(n % 10)
    }
}

impl Lam {
    /// The text of the term.
    ///
    /// Without `names` a variable is its index and an abstraction is `λ `
    /// and its body. With `names` an abstraction is `λ`, its label, `. ` and
    /// its body, and a variable is the label of its binder, or, when it is
    /// free, a name out of `names`, counted from the end. `labels` holds the
    /// labels of the enclosing abstractions, the innermost last. An
    /// application is its two sides with a space between; an abstraction
    /// that is not `root` stands in brackets.
    pub open spec fn render(
        self,
        names: Option<Seq<Seq<char>>>,
        labels: Seq<Seq<char>>,
        root: bool,
    ) -> Seq<char>
        decreases self,
    {
        match self {
            Lam::Var(x) => match names {
                None => decimal(x as nat),
                Some(names) => if x < labels.len() {
                    labels[labels.len() - 1 - x]
                } else {
                    names[names.len() - 1 - (x - labels.len())]
                },
            },
            Lam::Abs(body, label) => {
                let text = match names {
                    None => "λ "@ + body.render(names, labels, true),
                    Some(_) => "λ"@ + label + ". "@ + body.render(names, labels.push(label), true),
                };
                if root {
                    text
                } else {
                    "("@ + text + ")"@
                }
            },
            Lam::App(fun, arg) => fun.render(names, labels, false) + " "@ + arg.render(
                names,
                labels,
                false,
            ),
        }
    }
}

/// One decimal digit as text.
fn digit_str(d: usize) -> (r: &'static str)
    requires
        d < 10,
    ensures
        r@ == digit(d as nat),
{
    if d == 0 {
        "0"
    } else if d == 1 {
        "1"
    } else if d == 2 {
        "2"
    } else if d == 3 {
        "3"
    } else if d == 4 {
        "4"
    } else if d == 5 {
        "5"
    } else if d == 6 {
        "6"
    } else if d == 7 {
        "7"
    } else if d == 8 {
        "8"
    } else {
        "9"
    }
}

/// The number `n` in decimal.
pub fn decimal_string(n: usize) -> (r: String)
    ensures
        r@ == decimal(n as nat),
    decreases n,
{
    if n < 10 {
        String::from_str(digit_str(n))
    } else {
        let mut s = decimal_string(n / 10);
        s.append(digit_str(n % 10));
        s
    }
}

fn pretty_print_helper(
    term: &Term,
    ctx: Option<&Vec<String>>,
    frees: &mut Vec<String>,
    pos: Pos,
) -> (r: String)
    requires
        ctx matches Some(names) ==> term@.scoped(old(frees).len() + names.len()),
    ensures
        r@ == term@.render(ctx.deep_view(), old(frees).deep_view(), pos is Root),
        final(frees)@ == old(frees)@,
    decreases term,
{
    let ghost names = ctx.deep_view();
    let ghost labels = frees.deep_view();
    match term {
        Term::Var(x) => match ctx {
            None => decimal_string(*x),
            Some(ctx) => {
                assert(names == Some(ctx.deep_view()));
                // Check if the variable is in the local stack
                if *x < frees.len() {
                    frees[frees.len() - 1 - *x].clone()
                    // Otherwise it's a global variable
                } else {
                    ctx[ctx.len() - 1 - (*x - frees.len())].clone()
                }
            },
        },
        Term::Abs(t, x) => {
            // If we're printing labels, print it
            // Otherwise just print a lambda
            let mut string = match ctx {
                None => String::from_str("λ "),
                Some(_) => {
                    let mut lambda = String::from_str("λ");
                    lambda.append(x.as_str());
                    lambda.append(". ");
                    lambda
                },
            };
            // If we care about context, push the current identifier
            match ctx {
                None => (),
                Some(_) => frees.push(x.clone()),
            }
            assert(frees.deep_view() == if ctx is Some {
                labels.push(x@)
            } else {
                labels
            });
            // Put everything together
            let body = pretty_print_helper(t, ctx, frees, Pos::Root);
            string.append(body.as_str());
            // If we care about context, pop the last identifier
            match ctx {
                None => (),
                Some(_) => {
                    frees.pop();
                },
            }
            // If this isn't the root, add brackets
            match pos {
                Pos::Root => string,
                _ => {
                    let mut bracketed = String::from_str("(");
                    bracketed.append(string.as_str());
                    bracketed.append(")");
                    bracketed
                },
            }
        },
        Term::App(t1, t2) => {
            let mut string = pretty_print_helper(t1, ctx, frees, Pos::Left);
            let right = pretty_print_helper(t2, ctx, frees, Pos::Right);
            string.append(" ");
            string.append(right.as_str());
            string
        },
    }
}

impl Term {
    /// The text of the term: with bare indices when `ctx` is `None`, else
    /// with the labels of the abstractions, and the names in `ctx` for the
    /// free variables, the last name for the lowest free index.
    pub fn pretty_print(&self, ctx: Option<&Vec<String>>) -> (r: String)
        requires
            ctx matches Some(names) ==> self@.scoped(names.len() as int),
        ensures
            r@ == self@.render(ctx.deep_view(), Seq::empty(), true),
    {
        let mut frees = Vec::<String>::new();
        assert(frees.deep_view() == Seq::<Seq<char>>::empty());
        pretty_print_helper(self, ctx, &mut frees, Pos::Root)
    }
}

} // verus!
