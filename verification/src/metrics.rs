//! Structural measures of a term: counts of its nodes, its free variables,
//! crossings and bridges.

use vstd::prelude::*;
use crate::lambda::Lam;
use crate::lambda::Term;

verus! {

/// The indices in `s` as integers.
pub open spec fn ints(s: Seq<usize>) -> Seq<int> {
    s.map_values(|x: usize| x as int)
}

/// The indices in `s` as seen from outside one more abstraction: those that
/// the abstraction binds are gone, the others are one lower.
pub open spec fn lowered(s: Seq<int>) -> Seq<int>
    decreases s.len(),
{
    if s.len() == 0 {
        Seq::empty()
    } else if s.last() == 0 {
        lowered(s.drop_last())
    } else {
        lowered(s.drop_last()).push(s.last() - 1)
    }
}

/// The number of entries of `s` that are above `v`.
pub open spec fn count_above(s: Seq<int>, v: int) -> nat
    decreases s.len(),
{
    if s.len() == 0 {
        0
    } else {
        count_above(s.drop_last(), v) + if v < s.last() {
            1nat
        } else {
            0nat
        }
    }
}

/// The number of pairs of an entry of `a` and a larger entry of `b`.
pub open spec fn pairs_below(a: Seq<int>, b: Seq<int>) -> nat
    decreases a.len(),
{
    if a.len() == 0 {
        0
    } else {
        pairs_below(a.drop_last(), b) + count_above(b, a.last())
    }
}

impl Lam {
    /// The number of nodes of the term.
    pub open spec fn size(self) -> nat
        decreases self,
    {
        match self {
            Lam::Var(_) => 1,
            Lam::Abs(body, _) => 1 + body.size(),
            Lam::App(fun, arg) => 1 + fun.size() + arg.size(),
        }
    }

    /// The number of variable occurrences.
    pub open spec fn var_count(self) -> nat
        decreases self,
    {
        match self {
            Lam::Var(_) => 1,
            Lam::Abs(body, _) => body.var_count(),
            Lam::App(fun, arg) => fun.var_count() + arg.var_count(),
        }
    }

    /// The number of abstractions.
    pub open spec fn abs_count(self) -> nat
        decreases self,
    {
        match self {
            Lam::Var(_) => 0,
            Lam::Abs(body, _) => 1 + body.abs_count(),
            Lam::App(fun, arg) => fun.abs_count() + arg.abs_count(),
        }
    }

    /// The number of applications.
    pub open spec fn app_count(self) -> nat
        decreases self,
    {
        match self {
            Lam::Var(_) => 0,
            Lam::Abs(body, _) => body.app_count(),
            Lam::App(fun, arg) => 1 + fun.app_count() + arg.app_count(),
        }
    }

    /// The free occurrences of the term from left to right, each as the
    /// index it has at the root of the term.
    pub open spec fn free_indices(self) -> Seq<int>
        decreases self,
    {
        match self {
            Lam::Var(x) => seq![x],
            Lam::Abs(body, _) => lowered(body.free_indices()),
            Lam::App(fun, arg) => fun.free_indices() + arg.free_indices(),
        }
    }

    /// The number of crossings: over all applications, the pairs of a free
    /// occurrence in the function side and a free occurrence with a larger
    /// index in the argument side.
    pub open spec fn crossing_count(self) -> nat
        decreases self,
    {
        match self {
            Lam::Var(_) => 0,
            Lam::Abs(body, _) => body.crossing_count(),
            Lam::App(fun, arg) => fun.crossing_count() + arg.crossing_count() + pairs_below(
                fun.free_indices(),
                arg.free_indices(),
            ),
        }
    }

    /// Whether every free index is below `n`: the term makes sense under
    /// `n` enclosing binders.
    pub open spec fn scoped(self, n: int) -> bool
        decreases self,
    {
        match self {
            Lam::Var(x) => x < n,
            Lam::Abs(body, _) => body.scoped(n + 1),
            Lam::App(fun, arg) => fun.scoped(n) && arg.scoped(n),
        }
    }

    /// Whether the term is closed: it has no free occurrence.
    pub open spec fn closed(self) -> bool {
        self.free_indices().len() == 0
    }

    /// The height of the term: the most constructors above a variable.
    pub open spec fn height(self) -> nat
        decreases self,
    {
        match self {
            Lam::Var(_) => 0,
            Lam::Abs(body, _) => 1 + body.height(),
            Lam::App(fun, arg) => 1 + if fun.height() >= arg.height() {
                fun.height()
            } else {
                arg.height()
            },
        }
    }

    /// One more than the largest index of the term.
    pub open spec fn peak(self) -> nat
        decreases self,
    {
        match self {
            Lam::Var(x) => if x < 0 {
                0
            } else {
                (x + 1) as nat
            },
            Lam::Abs(body, _) => body.peak(),
            Lam::App(fun, arg) => if fun.peak() >= arg.peak() {
                fun.peak()
            } else {
                arg.peak()
            },
        }
    }

    /// The free variables of the term.
    pub open spec fn free_set(self) -> Set<int> {
        self.free_indices().to_set()
    }

    /// The number of abstractions whose variable occurs.
    pub open spec fn used_binders(self) -> nat
        decreases self,
    {
        match self {
            Lam::Var(_) => 0,
            Lam::Abs(body, _) => (if body.free_indices().contains(0) {
                1nat
            } else {
                0nat
            }) + body.used_binders(),
            Lam::App(fun, arg) => fun.used_binders() + arg.used_binders(),
        }
    }

    /// The number of distinct variables that occur: the free variables and
    /// the abstractions whose variable occurs.
    pub open spec fn unique_count(self) -> nat {
        self.free_set().len() + self.used_binders()
    }

    /// The number of bridges: the sides of applications that are closed.
    pub open spec fn bridge_count(self) -> nat
        decreases self,
    {
        match self {
            Lam::Var(_) => 0,
            Lam::Abs(body, _) => body.bridge_count(),
            Lam::App(fun, arg) => (if fun.closed() {
                1nat
            } else {
                0nat
            }) + (if arg.closed() {
                1nat
            } else {
                0nat
            }) + fun.bridge_count() + arg.bridge_count(),
        }
    }
}

impl Lam {
    /// A term is scoped under `n` binders exactly when its free
    /// occurrences are all below `n`.
    pub proof fn lemma_scoped_by_free_indices(self, n: int)
        requires
            0 <= n,
        ensures
            self.scoped(n) <==> forall|i: int|
                0 <= i < self.free_indices().len() ==> self.free_indices()[i] < n,
        decreases self,
    {
        match self {
            Lam::Var(x) => {
                assert(self.free_indices()[0] == x);
            },
            Lam::Abs(body, _) => {
                body.lemma_scoped_by_free_indices(n + 1);
                let inner = body.free_indices();
                let outer = self.free_indices();
                if self.scoped(n) {
                    assert forall|i: int| 0 <= i < outer.len() implies outer[i] < n by {
                        lemma_lowered_contains(inner, outer[i]);
                        let w = choose|w: int| 0 <= w < inner.len() && inner[w] == outer[i] + 1;
                    }
                }
                if forall|i: int| 0 <= i < outer.len() ==> outer[i] < n {
                    assert forall|w: int| 0 <= w < inner.len() implies inner[w] < n + 1 by {
                        lemma_lowered_contains(inner, inner[w] - 1);
                        if inner[w] != 0 {
                            let i = choose|i: int|
                                0 <= i < outer.len() && outer[i] == inner[w] - 1;
                        }
                    }
                }
            },
            Lam::App(fun, arg) => {
                fun.lemma_scoped_by_free_indices(n);
                arg.lemma_scoped_by_free_indices(n);
                let left = fun.free_indices();
                let right = arg.free_indices();
                let both = self.free_indices();
                if forall|i: int| 0 <= i < both.len() ==> both[i] < n {
                    assert forall|i: int| 0 <= i < left.len() implies left[i] < n by {
                        assert(both[i] == left[i]);
                    }
                    assert forall|i: int| 0 <= i < right.len() implies right[i] < n by {
                        assert(both[left.len() + i] == right[i]);
                    }
                }
            },
        }
    }
}

/// A term is bounded by its peak and its height.
pub proof fn lemma_bounded_by_measures(t: Term)
    ensures
        t@.bounded(t@.peak() as int, t@.height() as int),
    decreases t,
{
    match t {
        Term::Var(_) => {},
        Term::Abs(body, _) => {
            lemma_bounded_by_measures(*body);
        },
        Term::App(fun, arg) => {
            lemma_bounded_by_measures(*fun);
            lemma_bounded_by_measures(*arg);
            fun@.lemma_bounded_weaken(
                fun@.peak() as int,
                fun@.height() as int,
                t@.peak() as int,
                t@.height() - 1,
            );
            arg@.lemma_bounded_weaken(
                arg@.peak() as int,
                arg@.height() as int,
                t@.peak() as int,
                t@.height() - 1,
            );
        },
    }
}

/// `lowered` goes through `s` from left to right.
pub proof fn lemma_lowered_step(s: Seq<int>, i: int)
    requires
        0 <= i < s.len(),
    ensures
        lowered(s.take(i + 1)) == if s[i] == 0 {
            lowered(s.take(i))
        } else {
            lowered(s.take(i)).push(s[i] - 1)
        },
{
    assert(s.take(i + 1).drop_last() == s.take(i));
}

/// `lowered` holds one less than each entry but 0.
pub proof fn lemma_lowered_contains(s: Seq<int>, y: int)
    ensures
        lowered(s).contains(y) <==> s.contains(y + 1) && y != -1,
    decreases s.len(),
{
    if s.len() > 0 {
        let rest = s.drop_last();
        lemma_lowered_contains(rest, y);
        if lowered(s).contains(y) {
            let i = choose|i: int| 0 <= i < lowered(s).len() && lowered(s)[i] == y;
            if i < lowered(rest).len() {
                assert(lowered(rest)[i] == y);
                let w = choose|w: int| 0 <= w < rest.len() && rest[w] == y + 1;
                assert(s[w] == y + 1);
            } else {
                assert(s[s.len() - 1] == y + 1);
            }
        }
        if s.contains(y + 1) && y != -1 {
            let w = choose|w: int| 0 <= w < s.len() && s[w] == y + 1;
            if w < rest.len() {
                assert(rest[w] == y + 1);
                let i = choose|i: int| 0 <= i < lowered(rest).len() && lowered(rest)[i] == y;
                assert(lowered(s)[i] == y);
            } else {
                assert(lowered(s)[lowered(s).len() - 1] == y);
            }
        }
    }
}

/// `lowered` repeats nothing that was not repeated.
pub proof fn lemma_lowered_distinct(s: Seq<int>)
    requires
        s.no_duplicates(),
    ensures
        lowered(s).no_duplicates(),
    decreases s.len(),
{
    if s.len() > 0 {
        let rest = s.drop_last();
        lemma_lowered_distinct(rest);
        lemma_lowered_contains(rest, s.last() - 1);
        if s.last() != 0 && lowered(rest).contains(s.last() - 1) {
            let w = choose|w: int| 0 <= w < rest.len() && rest[w] == s.last();
            assert(s[w] == s[s.len() - 1]);
        }
    }
}

/// `count_above` goes through `s` from left to right, and grows.
pub proof fn lemma_count_above_step(s: Seq<int>, v: int, j: int)
    requires
        0 <= j < s.len(),
    ensures
        count_above(s.take(j + 1), v) == count_above(s.take(j), v) + if v < s[j] {
            1nat
        } else {
            0nat
        },
        count_above(s.take(j + 1), v) <= count_above(s, v),
    decreases s.len() - j,
{
    assert(s.take(j + 1).drop_last() == s.take(j));
    if j + 1 < s.len() {
        lemma_count_above_step(s, v, j + 1);
    } else {
        assert(s.take(j + 1) == s);
    }
}

/// `pairs_below` goes through `a` from left to right, and grows.
pub proof fn lemma_pairs_below_step(a: Seq<int>, b: Seq<int>, i: int)
    requires
        0 <= i < a.len(),
    ensures
        pairs_below(a.take(i + 1), b) == pairs_below(a.take(i), b) + count_above(b, a[i]),
        pairs_below(a.take(i + 1), b) <= pairs_below(a, b),
    decreases a.len() - i,
{
    assert(a.take(i + 1).drop_last() == a.take(i));
    if i + 1 < a.len() {
        lemma_pairs_below_step(a, b, i + 1);
    } else {
        assert(a.take(i + 1) == a);
    }
}

/// The indices in `inner` as seen from outside one more abstraction.
pub fn lower_indices(inner: &Vec<usize>) -> (v: Vec<usize>)
    ensures
        ints(v@) == lowered(ints(inner@)),
{
    let mut v: Vec<usize> = Vec::new();
    let mut k: usize = 0;
    assert(ints(inner@).take(0) == Seq::<int>::empty());
    while k < inner.len()
        invariant
            k <= inner.len(),
            ints(v@) == lowered(ints(inner@).take(k as int)),
        decreases inner.len() - k,
    {
        proof {
            lemma_lowered_step(ints(inner@), k as int);
        }
        let x = inner[k];
        let ghost before = v@;
        if x != 0 {
            v.push(x - 1);
            assert(ints(v@) == ints(before).push(x - 1));
        }
        k = k + 1;
    }
    assert(ints(inner@).take(k as int) == ints(inner@));
    v
}

/// The number of pairs of an entry of `v1` and a larger entry of `v2`.
fn inter_crossings(v1: Vec<usize>, v2: Vec<usize>) -> (r: u32)
    requires
        pairs_below(ints(v1@), ints(v2@)) <= u32::MAX,
    ensures
        r == pairs_below(ints(v1@), ints(v2@)),
{
    let ghost a = ints(v1@);
    let ghost b = ints(v2@);
    let mut counter: u32 = 0;
    let mut i: usize = 0;
    assert(a.take(0) == Seq::<int>::empty());
    while i < v1.len()
        invariant
            i <= v1.len(),
            a == ints(v1@),
            b == ints(v2@),
            counter == pairs_below(a.take(i as int), b),
            pairs_below(a, b) <= u32::MAX,
        decreases v1.len() - i,
    {
        let mut j: usize = 0;
        let ghost start = counter;
        assert(b.take(0) == Seq::<int>::empty());
        proof {
            lemma_pairs_below_step(a, b, i as int);
        }
        while j < v2.len()
            invariant
                i < v1.len(),
                j <= v2.len(),
                a == ints(v1@),
                b == ints(v2@),
                start == pairs_below(a.take(i as int), b),
                counter == start + count_above(b.take(j as int), a[i as int]),
                start + count_above(b, a[i as int]) <= u32::MAX,
            decreases v2.len() - j,
        {
            proof {
                lemma_count_above_step(b, a[i as int], j as int);
            }
            if v1[i] < v2[j] {
                counter += 1;
            }
            j = j + 1;
        }
        assert(b.take(j as int) == b);
        i = i + 1;
    }
    assert(a.take(i as int) == a);
    counter
}

impl Term {
    /// The number of nodes.
    pub fn subterms(&self) -> (r: u32)
        requires
            self@.size() <= u32::MAX,
        ensures
            r == self@.size(),
        decreases self,
    {
        match self {
            Term::Var(_) => 1,
            Term::Abs(t, _) => t.subterms() + 1,
            Term::App(t1, t2) => t1.subterms() + t2.subterms() + 1,
        }
    }

    /// The number of variable occurrences.
    pub fn variables(&self) -> (r: u32)
        requires
            self@.var_count() <= u32::MAX,
        ensures
            r == self@.var_count(),
        decreases self,
    {
        match self {
            Term::Var(_) => 1,
            Term::Abs(t, _) => t.variables(),
            Term::App(t1, t2) => t1.variables() + t2.variables(),
        }
    }

    /// The number of abstractions.
    pub fn abstractions(&self) -> (r: u32)
        requires
            self@.abs_count() <= u32::MAX,
        ensures
            r == self@.abs_count(),
        decreases self,
    {
        match self {
            Term::Var(_) => 0,
            Term::Abs(t, _) => t.abstractions() + 1,
            Term::App(t1, t2) => t1.abstractions() + t2.abstractions(),
        }
    }

    /// The number of applications.
    pub fn applications(&self) -> (r: u32)
        requires
            self@.app_count() <= u32::MAX,
        ensures
            r == self@.app_count(),
        decreases self,
    {
        match self {
            Term::Var(_) => 0,
            Term::Abs(t, _) => t.applications(),
            Term::App(t1, t2) => t1.applications() + t2.applications() + 1,
        }
    }

    /// The number of redexes.
    pub fn beta_redexes(&self) -> (r: u32)
        requires
            self@.redex_count() <= u32::MAX,
        ensures
            r == self@.redex_count(),
        decreases self,
    {
        match self {
            Term::Var(_) => 0,
            Term::Abs(t, _) => t.beta_redexes(),
            Term::App(t1, t2) => {
                let here: u32 = if t1.is_abs() {
                    1
                } else {
                    0
                };
                here + t1.beta_redexes() + t2.beta_redexes()
            },
        }
    }

    /// The free occurrences from left to right, each as the index it has
    /// at the root of the term.
    pub fn free_variable_indices(&self) -> (r: Vec<usize>)
        ensures
            ints(r@) == self@.free_indices(),
        decreases self,
    {
        match self {
            Term::Var(x) => {
                let mut v = Vec::new();
                v.push(*x);
                assert(ints(v@) == seq![*x as int]);
                v
            },
            Term::Abs(t, _) => lower_indices(&t.free_variable_indices()),
            Term::App(t1, t2) => {
                let mut v = t1.free_variable_indices();
                let mut w = t2.free_variable_indices();
                let ghost left = v@;
                let ghost right = w@;
                v.append(&mut w);
                assert(ints(v@) == ints(left) + ints(right));
                v
            },
        }
    }

    /// The number of crossings: over all applications, the pairs of a free
    /// occurrence in the function side and a free occurrence with a larger
    /// index in the argument side.
    pub fn crossings(&self) -> (r: u32)
        requires
            self@.crossing_count() <= u32::MAX,
        ensures
            r == self@.crossing_count(),
        decreases self,
    {
        match &self {
            Term::Var(_) => 0,
            Term::Abs(t, _) => t.crossings(),
            Term::App(t1, t2) => {
                let c1 = t1.crossings();
                let c2 = t2.crossings();
                let v1 = t1.free_variable_indices();
                let v2 = t2.free_variable_indices();
                c1 + c2 + inter_crossings(v1, v2)
            },
        }
    }

    /// The number of free occurrences.
    pub fn free_variables(&self) -> (r: usize)
        ensures
            r == self@.free_indices().len(),
    {
        self.free_variable_indices().len()
    }

    /// Whether the term is closed: no index is free at the root.
    pub fn closed(&self) -> (r: bool)
        ensures
            r == self@.closed(),
            r == self@.scoped(0),
    {
        let free = self.free_variable_indices();
        proof {
            self@.lemma_scoped_by_free_indices(0);
            if free.len() > 0 {
                assert(ints(free@)[0] >= 0);
            }
        }
        free.len() == 0
    }

    /// The number of bridges: the sides of applications that are closed.
    pub fn bridges(&self) -> (r: u32)
        requires
            self@.bridge_count() <= u32::MAX,
        ensures
            r == self@.bridge_count(),
        decreases self,
    {
        match self {
            Term::Var(_) => 0,
            Term::Abs(t, _) => t.bridges(),
            Term::App(t1, t2) => {
                let b1: u32 = if t1.closed() {
                    1
                } else {
                    0
                };
                let b2: u32 = if t2.closed() {
                    1
                } else {
                    0
                };
                b1 + b2 + t1.bridges() + t2.bridges()
            },
        }
    }
}

} // verus!
