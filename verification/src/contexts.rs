//! The ways to share out the free variables of an application between its
//! two sides.

use vstd::prelude::*;
use itertools::Itertools;

verus! {

/// A variable context cut in two: the variables of the function side and
/// those of the argument side.
pub type Split = (Seq<usize>, Seq<usize>);

/// `p` cut before position `j`.
pub open spec fn cut(p: Seq<usize>, j: int) -> Split {
    (p.take(j), p.skip(j))
}

/// Every sequence of `perms` cut before position `j`.
pub open spec fn cuts_at(perms: Seq<Seq<usize>>, j: int) -> Seq<Split> {
    perms.map_values(|p: Seq<usize>| cut(p, j))
}

/// The cuts of `perms` before position 0, then those before position 1,
/// and so on up to position `n - 1`.
pub open spec fn cuts_upto(perms: Seq<Seq<usize>>, n: nat) -> Seq<Split>
    decreases n,
{
    if n == 0 {
        Seq::empty()
    } else {
        cuts_upto(perms, (n - 1) as nat) + cuts_at(perms, n - 1)
    }
}

/// The sequences of `s` without repetition: each is kept where it first
/// occurs.
pub open spec fn first_occurrences(s: Seq<Seq<usize>>) -> Seq<Seq<usize>>
    decreases s.len(),
{
    if s.len() == 0 {
        Seq::empty()
    } else if s.drop_last().contains(s.last()) {
        first_occurrences(s.drop_last())
    } else {
        first_occurrences(s.drop_last()).push(s.last())
    }
}

/// The arrangements of `k` of the entries of `items`, in the order in which
/// `itertools` produces them.
pub uninterp spec fn k_permutations(items: Seq<usize>, k: nat) -> Seq<Seq<usize>>;

/// The context of both sides of an application in the pure fragment: each
/// side may use every variable.
pub open spec fn pure_contexts(ks: Seq<usize>) -> Seq<Split> {
    seq![(ks, ks)]
}

/// The contexts of the two sides of an application in the planar fragment:
/// the variables in their order, cut in two at every position.
pub open spec fn planar_contexts(ks: Seq<usize>) -> Seq<Split> {
    Seq::new(ks.len() + 1, |j: int| cut(ks, j))
}

/// The contexts of the two sides of an application in the linear fragment:
/// every distinct arrangement of the variables, cut in two at every
/// position; all cuts at position 0 come first.
pub open spec fn linear_contexts(ks: Seq<usize>) -> Seq<Split> {
    cuts_upto(first_occurrences(k_permutations(ks, ks.len())), ks.len() + 1)
}

/// Whether every variable in every split of `cs` is a variable of `ks`.
pub open spec fn drawn_from(cs: Seq<Split>, ks: Seq<usize>) -> bool {
    forall|i: int, j: int|
        #![trigger cs[i].0[j]]
        #![trigger cs[i].1[j]]
        0 <= i < cs.len() ==> (0 <= j < cs[i].0.len() ==> ks.contains(cs[i].0[j])) && (0 <= j
            < cs[i].1.len() ==> ks.contains(cs[i].1[j]))
}

/// Calls `Itertools::permutations` on the entries of `items`. Believed of
/// it: the result depends on `items` and `k` alone, each arrangement has
/// `k` entries, and each entry is an entry of `items`.
#[verifier::external_body]
fn permutations(items: &Vec<usize>, k: usize) -> (r: Vec<Vec<usize>>)
    ensures
        r.deep_view() == k_permutations(items@, k as nat),
        forall|i: int| 0 <= i < r.len() ==> (#[trigger] r[i]).len() == k,
        forall|i: int, j: int|
            0 <= i < r.len() && 0 <= j < r[i].len() ==> items@.contains(#[trigger] r[i][j]),
{
    items.iter().copied().permutations(k).collect()
}

/// Calls `Itertools::unique` on `items`. Believed of it: an item is kept
/// exactly where it occurs first, and the items kept stay in their order.
#[verifier::external_body]
fn unique(items: Vec<Vec<usize>>) -> (r: Vec<Vec<usize>>)
    ensures
        r.deep_view() == first_occurrences(items.deep_view()),
{
    items.into_iter().unique().collect()
}

/// The numbers from `n` down to 1.
pub fn descending_list(n: usize) -> (list: Vec<usize>)
    ensures
        list@ == Seq::new(n as nat, |i: int| (n - i) as usize),
{
    let mut list: Vec<usize> = Vec::new();
    let mut i: usize = n;
    while i > 0
        invariant
            i <= n,
            list@ == Seq::new((n - i) as nat, |j: int| (n - j) as usize),
        decreases i,
    {
        list.push(i);
        i = i - 1;
    }
    list
}

/// A copy of the entries of `v` from position `from` up to `to`.
fn copy_range(v: &Vec<usize>, from: usize, to: usize) -> (r: Vec<usize>)
    requires
        from <= to <= v.len(),
    ensures
        r@ == v@.subrange(from as int, to as int),
{
    let mut r: Vec<usize> = Vec::new();
    let mut i: usize = from;
    while i < to
        invariant
            from <= i <= to <= v.len(),
            r@ == v@.subrange(from as int, i as int),
        decreases to - i,
    {
        r.push(v[i]);
        i = i + 1;
    }
    r
}

/// The deep view of a vector of numbers is its view.
pub proof fn lemma_flat_view(v: Vec<usize>)
    ensures
        v.deep_view() == v@,
{
    assert(v.deep_view() =~= v@);
}

/// The deep view of a vector of vectors, row by row.
pub proof fn lemma_rows_view(v: Vec<Vec<usize>>)
    ensures
        v.deep_view().len() == v.len(),
        forall|i: int| 0 <= i < v.len() ==> #[trigger] v.deep_view()[i] == v[i]@,
{
    assert forall|i: int| 0 <= i < v.len() implies #[trigger] v.deep_view()[i] == v[i]@ by {
        lemma_flat_view(v[i]);
    }
}

/// The deep view of a vector of pairs of vectors, pair by pair.
pub proof fn lemma_splits_view(v: Vec<(Vec<usize>, Vec<usize>)>)
    ensures
        v.deep_view().len() == v.len(),
        forall|i: int| 0 <= i < v.len() ==> #[trigger] v.deep_view()[i] == (v[i].0@, v[i].1@),
{
    assert forall|i: int| 0 <= i < v.len() implies #[trigger] v.deep_view()[i] == (
        v[i].0@,
        v[i].1@,
    ) by {
        lemma_flat_view(v[i].0);
        lemma_flat_view(v[i].1);
    }
}

/// Appends `p` cut before position `j`.
fn push_cut(contexts: &mut Vec<(Vec<usize>, Vec<usize>)>, p: &Vec<usize>, j: usize)
    requires
        j <= p.len(),
    ensures
        final(contexts).deep_view() == old(contexts).deep_view().push(cut(p@, j as int)),
{
    let ghost before = *contexts;
    contexts.push((copy_range(p, 0, j), copy_range(p, j, p.len())));
    proof {
        lemma_splits_view(before);
        lemma_splits_view(*contexts);
        assert(contexts.deep_view() =~= before.deep_view().push(cut(p@, j as int)));
    }
}

/// The one context of the pure fragment.
pub fn generate_pure_contexts(ks: &Vec<usize>) -> (contexts: Vec<(Vec<usize>, Vec<usize>)>)
    ensures
        contexts.deep_view() == pure_contexts(ks@),
        drawn_from(contexts.deep_view(), ks@),
{
    let mut contexts: Vec<(Vec<usize>, Vec<usize>)> = Vec::new();
    contexts.push((copy_range(ks, 0, ks.len()), copy_range(ks, 0, ks.len())));
    proof {
        lemma_splits_view(contexts);
        assert(ks@.subrange(0, ks.len() as int) == ks@);
        assert(contexts.deep_view() =~= pure_contexts(ks@));
    }
    contexts
}

/// The contexts of the planar fragment.
pub fn generate_planar_contexts(ks: &Vec<usize>) -> (contexts: Vec<(Vec<usize>, Vec<usize>)>)
    ensures
        contexts.deep_view() == planar_contexts(ks@),
        drawn_from(contexts.deep_view(), ks@),
{
    let mut contexts: Vec<(Vec<usize>, Vec<usize>)> = Vec::new();
    let mut j: usize = 0;
    assert(contexts.deep_view() =~= Seq::new(0, |i: int| cut(ks@, i)));
    while j < ks.len()
        invariant
            j <= ks.len(),
            contexts.deep_view() == Seq::new(j as nat, |i: int| cut(ks@, i)),
        decreases ks.len() - j,
    {
        push_cut(&mut contexts, ks, j);
        j = j + 1;
        assert(contexts.deep_view() =~= Seq::new(j as nat, |i: int| cut(ks@, i)));
    }
    push_cut(&mut contexts, ks, j);
    assert(contexts.deep_view() =~= planar_contexts(ks@));
    contexts
}

/// Appends every entry of `perms` cut before position `j`.
fn push_cuts(contexts: &mut Vec<(Vec<usize>, Vec<usize>)>, perms: &Vec<Vec<usize>>, j: usize)
    requires
        forall|i: int| 0 <= i < perms.len() ==> j <= (#[trigger] perms[i]).len(),
    ensures
        final(contexts).deep_view() == old(contexts).deep_view() + cuts_at(
            perms.deep_view(),
            j as int,
        ),
{
    let ghost before = contexts.deep_view();
    let mut m: usize = 0;
    proof {
        lemma_rows_view(*perms);
        assert(contexts.deep_view() =~= before + cuts_at(perms.deep_view().take(0), j as int));
    }
    while m < perms.len()
        invariant
            m <= perms.len(),
            forall|i: int| 0 <= i < perms.len() ==> j <= (#[trigger] perms[i]).len(),
            forall|i: int| 0 <= i < perms.len() ==> #[trigger] perms.deep_view()[i] == perms[i]@,
            perms.deep_view().len() == perms.len(),
            contexts.deep_view() == before + cuts_at(perms.deep_view().take(m as int), j as int),
        decreases perms.len() - m,
    {
        push_cut(contexts, &perms[m], j);
        assert(contexts.deep_view() =~= before + cuts_at(
            perms.deep_view().take(m + 1),
            j as int,
        ));
        m = m + 1;
    }
    assert(perms.deep_view().take(m as int) == perms.deep_view());
}

/// Every entry of `perms` cut in two at every position from 0 to `len`;
/// all cuts at position 0 come first.
pub fn linear_contexts_from(perms: &Vec<Vec<usize>>, len: usize) -> (contexts: Vec<
    (Vec<usize>, Vec<usize>),
>)
    requires
        forall|i: int| 0 <= i < perms.len() ==> (#[trigger] perms[i]).len() == len,
    ensures
        contexts.deep_view() == cuts_upto(perms.deep_view(), (len + 1) as nat),
{
    let mut contexts: Vec<(Vec<usize>, Vec<usize>)> = Vec::new();
    let mut j: usize = 0;
    assert(contexts.deep_view() =~= cuts_upto(perms.deep_view(), 0));
    while j < len
        invariant
            j <= len,
            forall|i: int| 0 <= i < perms.len() ==> (#[trigger] perms[i]).len() == len,
            contexts.deep_view() == cuts_upto(perms.deep_view(), j as nat),
        decreases len - j,
    {
        push_cuts(&mut contexts, perms, j);
        j = j + 1;
    }
    push_cuts(&mut contexts, perms, j);
    contexts
}

/// The contexts of the linear fragment.
pub fn generate_linear_contexts(ks: &Vec<usize>) -> (contexts: Vec<(Vec<usize>, Vec<usize>)>)
    ensures
        contexts.deep_view() == linear_contexts(ks@),
        drawn_from(contexts.deep_view(), ks@),
{
    let all = permutations(ks, ks.len());
    let unique_perms = unique(all);
    proof {
        lemma_first_occurrences_kept(all.deep_view());
        lemma_rows_view(all);
        lemma_rows_view(unique_perms);
    }
    assert forall|i: int| 0 <= i < unique_perms.len() implies (#[trigger] unique_perms[i]).len()
        == ks.len() by {
        let p = unique_perms.deep_view()[i];
        assert(all.deep_view().contains(p));
        let w = choose|w: int| 0 <= w < all.len() && all.deep_view()[w] == p;
        assert(all[w].len() == ks.len());
    }
    let contexts = linear_contexts_from(&unique_perms, ks.len());
    proof {
        lemma_cuts_upto_entries(unique_perms.deep_view(), (ks.len() + 1) as nat);
        assert forall|i: int, j: int| 0 <= i < contexts.deep_view().len() implies (0 <= j
            < contexts.deep_view()[i].0.len() ==> ks@.contains(
            #[trigger] contexts.deep_view()[i].0[j],
        )) && (0 <= j < contexts.deep_view()[i].1.len() ==> ks@.contains(
            #[trigger] contexts.deep_view()[i].1[j],
        )) by {
            let c = contexts.deep_view()[i];
            assert(is_cut_of(c, unique_perms.deep_view(), (ks.len() + 1) as nat));
            let (m, at) = choose|m: int, at: int|
                0 <= m < unique_perms.len() && 0 <= at <= ks.len() && c == #[trigger] cut(
                    unique_perms.deep_view()[m],
                    at,
                );
            let p = unique_perms.deep_view()[m];
            assert(all.deep_view().contains(p));
            let w = choose|w: int| 0 <= w < all.len() && all.deep_view()[w] == p;
            assert(all[w].len() == ks.len());
            if 0 <= j < c.0.len() {
                assert(c.0[j] == all[w][j]);
            }
            if 0 <= j < c.1.len() {
                assert(c.1[j] == all[w][at + j]);
            }
        }
    }
    contexts
}

/// What `first_occurrences` keeps was there.
pub proof fn lemma_first_occurrences_kept(s: Seq<Seq<usize>>)
    ensures
        forall|i: int|
            0 <= i < first_occurrences(s).len() ==> s.contains(#[trigger] first_occurrences(s)[i]),
    decreases s.len(),
{
    if s.len() > 0 {
        lemma_first_occurrences_kept(s.drop_last());
        assert forall|i: int| 0 <= i < first_occurrences(s).len() implies s.contains(
            #[trigger] first_occurrences(s)[i],
        ) by {
            let e = first_occurrences(s)[i];
            if i < first_occurrences(s.drop_last()).len() {
                assert(s.drop_last().contains(e));
                let w = choose|w: int| 0 <= w < s.drop_last().len() && s.drop_last()[w] == e;
                assert(s[w] == e);
            } else {
                assert(s[s.len() - 1] == e);
            }
        }
    }
}

/// Whether `c` is an entry of `perms` cut at a position below `n`.
pub open spec fn is_cut_of(c: Split, perms: Seq<Seq<usize>>, n: nat) -> bool {
    exists|m: int, at: int| 0 <= m < perms.len() && 0 <= at < n && c == #[trigger] cut(perms[m], at)
}

/// Every entry of `cuts_upto` is one entry of `perms` cut at one position.
pub proof fn lemma_cuts_upto_entries(perms: Seq<Seq<usize>>, n: nat)
    ensures
        forall|i: int|
            0 <= i < cuts_upto(perms, n).len() ==> is_cut_of(
                #[trigger] cuts_upto(perms, n)[i],
                perms,
                n,
            ),
    decreases n,
{
    if n > 0 {
        lemma_cuts_upto_entries(perms, (n - 1) as nat);
        let before = cuts_upto(perms, (n - 1) as nat);
        assert forall|i: int| 0 <= i < cuts_upto(perms, n).len() implies is_cut_of(
            #[trigger] cuts_upto(perms, n)[i],
            perms,
            n,
        ) by {
            if i < before.len() {
                assert(is_cut_of(before[i], perms, (n - 1) as nat));
                let (m, at) = choose|m: int, at: int|
                    0 <= m < perms.len() && 0 <= at < n - 1 && before[i] == #[trigger] cut(
                        perms[m],
                        at,
                    );
                assert(cuts_upto(perms, n)[i] == cut(perms[m], at));
            } else {
                let m = i - before.len();
                assert(cuts_upto(perms, n)[i] == cut(perms[m], n - 1));
            }
        }
    }
}

} // verus!
