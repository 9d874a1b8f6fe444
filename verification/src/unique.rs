//! Counting the distinct variables of a term in one pass, with a list of
//! the variables seen so far that follows the walk under each abstraction
//! and out again.

use vstd::prelude::*;
use vstd::set_lib::lemma_len_subset;
use vstd::set_lib::lemma_map_size;
use vstd::set_lib::lemma_set_disjoint_lens;
use crate::lambda::Lam;
use crate::lambda::Term;
use crate::metrics::ints;
use crate::metrics::lemma_lowered_contains;
use crate::metrics::lemma_lowered_distinct;
use crate::metrics::lemma_bounded_by_measures;
use crate::metrics::lower_indices;
use crate::metrics::lowered;

verus! {

/// The number of members of `found` that are not in `seen`.
pub open spec fn fresh(found: Set<int>, seen: Set<int>) -> nat {
    found.difference(seen).len()
}

/// Every entry of `s` one higher.
pub open spec fn raised(s: Seq<int>) -> Seq<int> {
    s.map_values(|x: int| x + 1)
}

/// Whether every entry of `s` lies in `0..top`.
pub open spec fn below(s: Seq<int>, top: int) -> bool {
    forall|i: int| 0 <= i < s.len() ==> 0 <= #[trigger] s[i] < top
}

/// Under an abstraction the variables not yet seen are those that are not
/// yet seen outside it, and the variable of the abstraction if it occurs.
pub proof fn lemma_fresh_under_binder(found: Seq<int>, seen: Seq<int>)
    requires
        forall|i: int| 0 <= i < seen.len() ==> 0 <= #[trigger] seen[i],
    ensures
        fresh(found.to_set(), raised(seen).to_set()) == fresh(
            lowered(found).to_set(),
            seen.to_set(),
        ) + if found.contains(0) {
            1nat
        } else {
            0nat
        },
{
    broadcast use vstd::seq_lib::seq_to_set_is_finite;

    let inside = found.to_set().difference(raised(seen).to_set());
    let outside = lowered(found).to_set().difference(seen.to_set());
    let rest = inside.remove(0);
    let down = |x: int| x - 1;
    assert forall|y: int| outside.contains(y) implies rest.map(down).contains(y) by {
        lemma_lowered_contains(found, y);
        if raised(seen).contains(y + 1) {
            let i = choose|i: int| 0 <= i < raised(seen).len() && raised(seen)[i] == y + 1;
            assert(seen[i] == y);
        }
        assert(rest.contains(y + 1) && down(y + 1) == y);
    }
    assert forall|y: int| rest.map(down).contains(y) implies outside.contains(y) by {
        let x = choose|x: int| rest.contains(x) && down(x) == y;
        lemma_lowered_contains(found, y);
        if seen.contains(y) {
            let i = choose|i: int| 0 <= i < seen.len() && seen[i] == y;
            assert(raised(seen)[i] == x);
        }
    }
    assert(rest.map(down) =~= outside);
    assert(vstd::relations::injective_on(down, rest));
    lemma_map_size(rest, outside, down);
    if raised(seen).contains(0) {
        let i = choose|i: int| 0 <= i < raised(seen).len() && raised(seen)[i] == 0;
        assert(seen[i] == -1);
    }
}

/// The variables of an application not yet seen are those of its function
/// side, and those of its argument side that the function side did not
/// bring.
pub proof fn lemma_fresh_split(fun: Set<int>, arg: Set<int>, seen: Set<int>)
    requires
        fun.finite(),
        arg.finite(),
    ensures
        fresh(fun.union(arg), seen) == fresh(fun, seen) + fresh(arg, seen.union(fun)),
        fresh(fun, seen) <= fresh(fun.union(arg), seen),
{
    let first = fun.difference(seen);
    let second = arg.difference(seen.union(fun));
    assert(fun.union(arg).difference(seen) =~= first + second);
    lemma_set_disjoint_lens(first, second);
}

/// Whether `x` is an entry of `seen`.
fn contains_index(seen: &Vec<usize>, x: usize) -> (r: bool)
    ensures
        r == ints(seen@).contains(x as int),
{
    let mut i: usize = 0;
    while i < seen.len()
        invariant
            i <= seen.len(),
            forall|k: int| 0 <= k < i ==> ints(seen@)[k] != x,
        decreases seen.len() - i,
    {
        if seen[i] == x {
            assert(ints(seen@)[i as int] == x);
            return true;
        }
        i = i + 1;
    }
    false
}

/// Every entry of `seen` one higher.
fn raise_indices(seen: &Vec<usize>) -> (r: Vec<usize>)
    requires
        forall|i: int| 0 <= i < seen.len() ==> #[trigger] seen[i] < usize::MAX,
    ensures
        ints(r@) == raised(ints(seen@)),
{
    let mut r: Vec<usize> = Vec::new();
    let mut i: usize = 0;
    assert(ints(r@) =~= raised(ints(seen@).take(0)));
    while i < seen.len()
        invariant
            i <= seen.len(),
            forall|i: int| 0 <= i < seen.len() ==> #[trigger] seen[i] < usize::MAX,
            ints(r@) == raised(ints(seen@).take(i as int)),
        decreases seen.len() - i,
    {
        let ghost so_far = r@;
        r.push(seen[i] + 1);
        proof {
            assert(ints(r@) =~= ints(so_far).push(seen[i as int] + 1));
            assert(ints(seen@).take(i + 1) =~= ints(seen@).take(i as int).push(seen[i as int] as int));
            assert(ints(r@) =~= raised(ints(seen@).take(i + 1)));
        }
        i = i + 1;
    }
    assert(ints(seen@).take(i as int) == ints(seen@));
    r
}

impl Term {
    /// Walks the term with the variables seen so far, each as the index it
    /// has where the walk stands, and counts those that are new.
    fn unique_walk(
        &self,
        count: u32,
        seen: Vec<usize>,
        Ghost(top): Ghost<int>,
        Ghost(depth): Ghost<int>,
    ) -> (r: (u32, Vec<usize>))
        requires
            self@.bounded(top, depth),
            top + depth <= usize::MAX,
            below(ints(seen@), top),
            ints(seen@).no_duplicates(),
            count + fresh(self@.free_set(), ints(seen@).to_set()) + self@.used_binders()
                <= u32::MAX,
        ensures
            below(ints(r.1@), top),
            ints(r.1@).no_duplicates(),
            ints(r.1@).to_set() == ints(seen@).to_set().union(self@.free_set()),
            r.0 == count + fresh(self@.free_set(), ints(seen@).to_set()) + self@.used_binders(),
        decreases self,
    {
        broadcast use vstd::seq_lib::seq_to_set_is_finite;

        let ghost before = ints(seen@);
        match self {
            Term::Var(x) => {
                let ghost found = seq![*x as int].to_set();
                assert(found =~= set![*x as int]) by {
                    assert(seq![*x as int][0] == *x as int);
                }
                if contains_index(&seen, *x) {
                    assert(found.difference(before.to_set()) =~= Set::empty());
                    assert(before.to_set().union(found) =~= before.to_set());
                    (count, seen)
                } else {
                    let mut seen = seen;
                    seen.push(*x);
                    proof {
                        assert(ints(seen@) =~= before.push(*x as int));
                        assert(found.difference(before.to_set()) =~= set![*x as int]);
                        before.lemma_push_to_set_commute(*x as int);
                        assert(before.to_set().union(found) =~= before.to_set().insert(*x as int));
                    }
                    (count + 1, seen)
                }
            },
            Term::Abs(t, _) => {
                proof {
                    assert forall|i: int| 0 <= i < seen.len() implies #[trigger] seen[i]
                        < usize::MAX by {
                        assert(before[i] < top);
                    }
                }
                let inner = raise_indices(&seen);
                proof {
                    lemma_fresh_under_binder(t@.free_indices(), before);
                    t@.lemma_bounded_weaken(top, depth - 1, top + 1, depth - 1);
                    assert(below(ints(inner@), top + 1)) by {
                        assert forall|i: int| 0 <= i < ints(inner@).len() implies 0
                            <= #[trigger] ints(inner@)[i] < top + 1 by {
                            assert(before[i] < top);
                        }
                    }
                    assert(ints(inner@).no_duplicates()) by {
                        assert forall|i: int, j: int|
                            0 <= i < ints(inner@).len() && 0 <= j < ints(inner@).len() && i
                                != j implies ints(inner@)[i] != ints(inner@)[j] by {
                            assert(before[i] != before[j]);
                        }
                    }
                }
                let (count, inner) = t.unique_walk(count, inner, Ghost(top + 1), Ghost(depth - 1));
                let seen = lower_indices(&inner);
                proof {
                    let walked = ints(inner@);
                    lemma_lowered_distinct(walked);
                    assert forall|i: int| 0 <= i < ints(seen@).len() implies 0 <= #[trigger] ints(
                        seen@,
                    )[i] < top by {
                        let y = ints(seen@)[i];
                        lemma_lowered_contains(walked, y);
                        let w = choose|w: int| 0 <= w < walked.len() && walked[w] == y + 1;
                    }
                    let mine = t@.free_indices();
                    assert(self@.free_indices() == lowered(mine));
                    assert(walked.to_set() == raised(before).to_set().union(mine.to_set()));
                    assert forall|y: int|
                        ints(seen@).to_set().contains(y) <==> before.to_set().union(
                            self@.free_set(),
                        ).contains(y) by {
                        lemma_lowered_contains(walked, y);
                        lemma_lowered_contains(mine, y);
                        assert(walked.contains(y + 1) <==> walked.to_set().contains(y + 1));
                        assert(walked.contains(y + 1) <==> raised(before).contains(y + 1)
                            || mine.contains(y + 1));
                        if raised(before).contains(y + 1) {
                            let i = choose|i: int|
                                0 <= i < raised(before).len() && raised(before)[i] == y + 1;
                            assert(before[i] == y);
                        }
                        if before.contains(y) {
                            let i = choose|i: int| 0 <= i < before.len() && before[i] == y;
                            assert(raised(before)[i] == y + 1);
                        }
                        assert(before.contains(y) <==> raised(before).contains(y + 1));
                    }
                    assert(ints(seen@).to_set() =~= before.to_set().union(self@.free_set()));
                }
                (count, seen)
            },
            Term::App(t1, t2) => {
                proof {
                    lemma_fresh_split(t1@.free_set(), t2@.free_set(), before.to_set());
                    vstd::seq_lib::seq_to_set_distributes_over_add(
                        t1@.free_indices(),
                        t2@.free_indices(),
                    );
                }
                let (count, seen) = t1.unique_walk(count, seen, Ghost(top), Ghost(depth - 1));
                let (count, seen) = t2.unique_walk(count, seen, Ghost(top), Ghost(depth - 1));
                proof {
                    assert(ints(seen@).to_set() =~= before.to_set().union(self@.free_set()));
                }
                (count, seen)
            },
        }
    }

    /// The number of distinct variables that occur in the term. The
    /// largest index and the height of the term must fit in `usize`
    /// together.
    pub fn unique_variables(&self) -> (r: u32)
        requires
            self@.peak() + self@.height() <= usize::MAX,
            self@.unique_count() <= u32::MAX,
        ensures
            r == self@.unique_count(),
    {
        let seen: Vec<usize> = Vec::new();
        proof {
            lemma_bounded_by_measures(*self);
            assert(ints(seen@) =~= Seq::<int>::empty());
            assert(self@.free_set().difference(ints(seen@).to_set()) =~= self@.free_set());
        }
        self.unique_walk(0, seen, Ghost(self@.peak() as int), Ghost(self@.height() as int)).0
    }
}

} // verus!
