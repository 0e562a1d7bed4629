use vstd::prelude::*;
use vstd::relations::{sorted_by, total_ordering};

use crate::puzzle::{lemma_vial_ext, lemma_vial_len};
use super::{holds, AnnotatedVial};

verus! {

/// Index of the first place at or after `i` where `a` and `b` differ, or
/// `a.len()` when they agree from `i` on.
pub open spec fn first_difference<A>(a: Seq<A>, b: Seq<A>, i: int) -> int
    decreases a.len() - i,
{
    if 0 <= i < a.len() {
        if a[i] != b[i] {
            i
        } else {
            first_difference(a, b, i + 1)
        }
    } else {
        a.len() as int
    }
}

/// Lexicographic order on the cells of two vials of the same height.
pub open spec fn cells_less(a: Seq<u8>, b: Seq<u8>) -> bool {
    let k = first_difference(a, b, 0);
    k < a.len() && a[k] < b[k]
}

/// `None` comes before any colour; colours compare by value.
pub open spec fn lead_less(a: Option<u8>, b: Option<u8>) -> bool {
    match a {
        None => b is Some,
        Some(x) => match b {
            Some(y) => x < y,
            None => false,
        },
    }
}

/// The order of annotated vials: by cells, then by block count, then by
/// top colour (the order that `derive(Ord)` gives the struct).
pub open spec fn av_less<const N: usize>(a: AnnotatedVial<N>, b: AnnotatedVial<N>) -> bool {
    ||| cells_less(a.vial@, b.vial@)
    ||| a.vial@ == b.vial@ && a.blocks < b.blocks
    ||| a.vial@ == b.vial@ && a.blocks == b.blocks && lead_less(a.lead_colour, b.lead_colour)
}

pub open spec fn av_le<const N: usize>(a: AnnotatedVial<N>, b: AnnotatedVial<N>) -> bool {
    a == b || av_less(a, b)
}

pub open spec fn av_order<const N: usize>() -> spec_fn(AnnotatedVial<N>, AnnotatedVial<N>) -> bool {
    |a: AnnotatedVial<N>, b: AnnotatedVial<N>| av_le(a, b)
}

/// The canonical arrangement of a state: its vials in ascending order.
pub open spec fn canonical<const N: usize>(s: Seq<AnnotatedVial<N>>) -> Seq<AnnotatedVial<N>> {
    s.sort_by(av_order())
}

proof fn lemma_first_difference<A>(a: Seq<A>, b: Seq<A>, i: int)
    requires
        a.len() == b.len(),
        0 <= i <= a.len(),
    ensures
        i <= first_difference(a, b, i) <= a.len(),
        forall|k: int| i <= k < first_difference(a, b, i) ==> a[k] == b[k],
        first_difference(a, b, i) < a.len() ==> a[first_difference(a, b, i)] != b[first_difference(
            a,
            b,
            i,
        )],
        first_difference(a, b, i) == first_difference(b, a, i),
    decreases a.len() - i,
{
    if i < a.len() && a[i] == b[i] {
        lemma_first_difference(a, b, i + 1);
    }
}

proof fn lemma_first_difference_is<A>(a: Seq<A>, b: Seq<A>, i: int, k: int)
    requires
        a.len() == b.len(),
        0 <= i <= k <= a.len(),
        forall|j: int| i <= j < k ==> a[j] == b[j],
        k == a.len() || a[k] != b[k],
    ensures
        first_difference(a, b, i) == k,
    decreases k - i,
{
    if i < k {
        lemma_first_difference_is(a, b, i + 1, k);
    }
}

proof fn lemma_cells(a: Seq<u8>, b: Seq<u8>)
    requires
        a.len() == b.len(),
    ensures
        !(cells_less(a, b) && cells_less(b, a)),
        a != b ==> cells_less(a, b) || cells_less(b, a),
        cells_less(a, b) ==> a != b,
{
    lemma_first_difference(a, b, 0);
    if first_difference(a, b, 0) == a.len() {
        assert(a =~= b);
    }
}

proof fn lemma_cells_transitive(a: Seq<u8>, b: Seq<u8>, c: Seq<u8>)
    requires
        a.len() == b.len(),
        b.len() == c.len(),
        cells_less(a, b),
        cells_less(b, c),
    ensures
        cells_less(a, c),
{
    lemma_first_difference(a, b, 0);
    lemma_first_difference(b, c, 0);
    let k1 = first_difference(a, b, 0);
    let k2 = first_difference(b, c, 0);
    let k = if k1 <= k2 {
        k1
    } else {
        k2
    };
    assert(forall|j: int| 0 <= j < k ==> a[j] == c[j]);
    lemma_first_difference_is(a, c, 0, k);
}

/// The order of annotated vials is a total order.
pub proof fn lemma_av_order<const N: usize>()
    ensures
        total_ordering(av_order::<N>()),
{
    broadcast use lemma_vial_len;

    assert forall|a: AnnotatedVial<N>, b: AnnotatedVial<N>|
        #[trigger] av_order::<N>()(a, b) && #[trigger] av_order::<N>()(b, a) implies a == b by {
        lemma_cells(a.vial@, b.vial@);
        if a.vial@ == b.vial@ {
            lemma_vial_ext(a.vial, b.vial);
        }
    }
    assert forall|a: AnnotatedVial<N>, b: AnnotatedVial<N>, c: AnnotatedVial<N>|
        #[trigger] av_order::<N>()(a, b) && #[trigger] av_order::<N>()(b, c) implies av_order::<
        N,
    >()(a, c) by {
        lemma_av_le_transitive(a, b, c);
    }
    assert forall|a: AnnotatedVial<N>, b: AnnotatedVial<N>|
        #[trigger] av_order::<N>()(a, b) || #[trigger] av_order::<N>()(b, a) by {
        lemma_av_total(a, b);
    }
}

pub proof fn lemma_av_le_transitive<const N: usize>(
    a: AnnotatedVial<N>,
    b: AnnotatedVial<N>,
    c: AnnotatedVial<N>,
)
    requires
        av_le(a, b),
        av_le(b, c),
    ensures
        av_le(a, c),
{
    broadcast use lemma_vial_len;

    if a != b && b != c {
        lemma_cells(a.vial@, b.vial@);
        lemma_cells(b.vial@, c.vial@);
        if cells_less(a.vial@, b.vial@) && cells_less(b.vial@, c.vial@) {
            lemma_cells_transitive(a.vial@, b.vial@, c.vial@);
        }
    }
}

/// Any two annotated vials are ordered one way or the other; strictly so
/// when they differ.
pub proof fn lemma_av_total<const N: usize>(a: AnnotatedVial<N>, b: AnnotatedVial<N>)
    ensures
        av_le(a, b) || av_le(b, a),
        !av_le(a, b) ==> av_less(b, a),
        av_less(a, b) ==> !av_le(b, a),
{
    broadcast use lemma_vial_len;

    lemma_cells(a.vial@, b.vial@);
    if a.vial@ == b.vial@ {
        lemma_vial_ext(a.vial, b.vial);
    }
}

/// Compares two annotated vials in the order of `av_le`.
pub fn av_le_exec<const N: usize>(a: &AnnotatedVial<N>, b: &AnnotatedVial<N>) -> (r: bool)
    ensures
        r == av_le(*a, *b),
{
    broadcast use lemma_vial_len;

    proof {
        lemma_first_difference(a.vial@, b.vial@, 0);
        lemma_cells(a.vial@, b.vial@);
    }
    let mut k: usize = 0;
    while k < N && a.vial.get(k) == b.vial.get(k)
        invariant
            k <= N,
            first_difference(a.vial@, b.vial@, 0) == first_difference(a.vial@, b.vial@, k as int),
        decreases N - k,
    {
        k += 1;
    }
    proof {
        lemma_first_difference(a.vial@, b.vial@, k as int);
    }
    if k < N {
        return a.vial.get(k) < b.vial.get(k);
    }
    proof {
        assert(a.vial@ =~= b.vial@);
        lemma_vial_ext(a.vial, b.vial);
    }
    if a.blocks != b.blocks {
        return a.blocks < b.blocks;
    }
    match a.lead_colour {
        None => true,
        Some(x) => match b.lead_colour {
            None => false,
            Some(y) => x <= y,
        },
    }
}

/// Tells whether two annotated vials are the same.
pub fn av_eq_exec<const N: usize>(a: &AnnotatedVial<N>, b: &AnnotatedVial<N>) -> (r: bool)
    ensures
        r == (*a == *b),
{
    broadcast use lemma_vial_len;

    let mut k: usize = 0;
    while k < N
        invariant
            k <= N,
            forall|j: int| 0 <= j < k ==> a.vial@[j] == b.vial@[j],
        decreases N - k,
    {
        if a.vial.get(k) != b.vial.get(k) {
            return false;
        }
        k += 1;
    }
    proof {
        assert(a.vial@ =~= b.vial@);
        lemma_vial_ext(a.vial, b.vial);
    }
    if a.blocks != b.blocks {
        return false;
    }
    match a.lead_colour {
        None => b.lead_colour.is_none(),
        Some(x) => match b.lead_colour {
            None => false,
            Some(y) => x == y,
        },
    }
}

/// Puts the vials of a state in their canonical order (insertion sort).
pub fn sort_state<const N: usize, const T: usize>(s: &mut [AnnotatedVial<N>; T])
    ensures
        final(s)@ == canonical(old(s)@),
{
    broadcast use vstd::array::group_array_axioms;
    broadcast use vstd::seq_lib::group_to_multiset_ensures;
    broadcast use vstd::multiset::group_multiset_axioms;

    let ghost s0 = s@;
    let mut i: usize = 1;
    while i < T
        invariant
            1 <= i,
            s@.len() == T,
            s@.to_multiset() == s0.to_multiset(),
            forall|a: int, b: int| 0 <= a < b < i && b < T ==> av_le(s@[a], s@[b]),
        decreases T - i,
    {
        let mut j: usize = i;
        while j > 0 && !av_le_exec(&s[j - 1], &s[j])
            invariant
                j <= i < T,
                s@.len() == T,
                s@.to_multiset() == s0.to_multiset(),
                forall|a: int, b: int| 0 <= a < b < j ==> av_le(s@[a], s@[b]),
                forall|a: int, b: int| j < a < b <= i ==> av_le(s@[a], s@[b]),
                forall|a: int, b: int| 0 <= a < j && j < b <= i ==> av_le(s@[a], s@[b]),
                forall|b: int| j < b <= i ==> av_less(s@[j as int], s@[b]),
            decreases j,
        {
            proof {
                lemma_av_total(s@[j - 1], s@[j as int]);
            }
            let ghost before = s@;
            let x = s[j];
            let w = s[j - 1];
            s[j] = w;
            s[j - 1] = x;
            proof {
                assert(s@ == before.update(j as int, w).update(j - 1, x));
                let mid = before.update(j as int, w);
                assert(before.len() == T);
                vstd::seq_lib::to_multiset_update(before, j as int, w);
                vstd::seq_lib::to_multiset_update(mid, j - 1, x);
                assert(before[j as int] == x);
                assert(before.contains(x));
                vstd::seq_lib::to_multiset_contains(before, x);
                assert(s@.to_multiset() =~= before.to_multiset());
                assert forall|b: int| j - 1 < b <= i implies av_less(s@[j - 1], #[trigger] s@[b]) by {
                    if b > j {
                        assert(av_le(before[j - 1], before[b]));
                        lemma_av_total(before[j as int], before[b]);
                        if before[j - 1] != before[b] {
                            lemma_av_total(before[j - 1], before[b]);
                            lemma_av_total(before[j as int], before[j - 1]);
                            lemma_av_le_transitive(before[j as int], before[j - 1], before[b]);
                        }
                    }
                }
                assert forall|a: int, b: int| j - 1 < a < b <= i implies av_le(s@[a], s@[b]) by {
                    if a == j {
                        assert(av_le(before[j - 1], before[b]));
                    }
                }
            }
            j -= 1;
        }
        proof {
            assert forall|a: int, b: int| 0 <= a < b < i + 1 && b < T implies av_le(s@[a], s@[b]) by {
                if a < j && b == j {
                } else if a < j && b > j {
                } else if a == j && b > j {
                } else if a < j && b == j {
                }
                if j > 0 && a < j && b == j {
                    if a < j - 1 {
                        lemma_av_le_transitive(s@[a], s@[j - 1], s@[j as int]);
                    }
                }
            }
        }
        i += 1;
    }
    proof {
        lemma_av_order::<N>();
        s0.lemma_sort_by_ensures(av_order::<N>());
        assert(sorted_by(s@, av_order::<N>()));
        vstd::seq_lib::lemma_sorted_unique(s@, s0.sort_by(av_order::<N>()), av_order::<N>());
    }
}

/// Lexicographic order on states of the same length, vial by vial.
pub open spec fn state_less<const N: usize>(a: Seq<AnnotatedVial<N>>, b: Seq<AnnotatedVial<N>>) -> bool {
    let k = first_difference(a, b, 0);
    k < a.len() && av_less(a[k], b[k])
}

/// The states of `col` stand in strictly ascending order, so none occurs twice.
pub open spec fn sorted_states<const N: usize, const T: usize>(
    col: Seq<[AnnotatedVial<N>; T]>,
) -> bool {
    forall|i: int, j: int| 0 <= i < j < col.len() ==> state_less(#[trigger] col[i]@, #[trigger] col[j]@)
}

/// `state_less` is a strict total order on states of the same length.
pub proof fn lemma_state_less<const N: usize>(a: Seq<AnnotatedVial<N>>, b: Seq<AnnotatedVial<N>>)
    requires
        a.len() == b.len(),
    ensures
        !(state_less(a, b) && state_less(b, a)),
        state_less(a, b) ==> a != b,
        a != b ==> state_less(a, b) || state_less(b, a),
{
    lemma_first_difference(a, b, 0);
    let k = first_difference(a, b, 0);
    if k < a.len() {
        lemma_av_total(a[k], b[k]);
    } else {
        assert(a =~= b);
    }
}

pub proof fn lemma_state_less_transitive<const N: usize>(
    a: Seq<AnnotatedVial<N>>,
    b: Seq<AnnotatedVial<N>>,
    c: Seq<AnnotatedVial<N>>,
)
    requires
        a.len() == b.len(),
        b.len() == c.len(),
        state_less(a, b),
        state_less(b, c),
    ensures
        state_less(a, c),
{
    lemma_first_difference(a, b, 0);
    lemma_first_difference(b, c, 0);
    let k1 = first_difference(a, b, 0);
    let k2 = first_difference(b, c, 0);
    let k = if k1 <= k2 {
        k1
    } else {
        k2
    };
    assert(forall|j: int| 0 <= j < k ==> a[j] == c[j]);
    if k1 < k2 {
        assert(b[k1] == c[k1]);
        lemma_av_total(a[k1], b[k1]);
    } else if k2 < k1 {
        assert(a[k2] == b[k2]);
        lemma_av_total(b[k2], c[k2]);
    } else {
        lemma_av_total(a[k], b[k]);
        lemma_av_total(b[k], c[k]);
        lemma_av_le_transitive(a[k], b[k], c[k]);
        lemma_av_total(c[k], a[k]);
    }
    lemma_av_total(a[k], c[k]);
    lemma_first_difference_is(a, c, 0, k);
}

/// Where one state stands against another in the order of `state_less`.
pub enum Placement {
    Before,
    Same,
    After,
}

/// Places the state `a` against the state `b`.
pub fn compare_states<const N: usize, const T: usize>(
    a: &[AnnotatedVial<N>; T],
    b: &[AnnotatedVial<N>; T],
) -> (r: Placement)
    ensures
        match r {
            Placement::Before => state_less(a@, b@),
            Placement::Same => a@ == b@,
            Placement::After => state_less(b@, a@),
        },
{
    broadcast use vstd::array::group_array_axioms;

    proof {
        lemma_first_difference(a@, b@, 0);
    }
    let mut i: usize = 0;
    while i < T
        invariant
            i <= T,
            a@.len() == T,
            b@.len() == T,
            first_difference(a@, b@, 0) == first_difference(a@, b@, i as int),
        decreases T - i,
    {
        if !av_eq_exec(&a[i], &b[i]) {
            proof {
                lemma_first_difference_is(a@, b@, i as int, i as int);
                lemma_av_total(a@[i as int], b@[i as int]);
                lemma_first_difference(b@, a@, 0);
            }
            if av_le_exec(&a[i], &b[i]) {
                return Placement::Before;
            } else {
                return Placement::After;
            }
        }
        proof {
            assert(first_difference(a@, b@, i as int) == first_difference(a@, b@, i + 1));
        }
        i += 1;
    }
    proof {
        lemma_first_difference(a@, b@, T as int);
        assert(a@ =~= b@);
    }
    Placement::Same
}

/// Adds the state `p` to the ascending column `col`, in its place, unless
/// it is there already; tells whether it was added.
pub fn insert_state<const N: usize, const T: usize>(
    col: &mut Vec<[AnnotatedVial<N>; T]>,
    p: [AnnotatedVial<N>; T],
) -> (added: bool)
    requires
        sorted_states(old(col)@),
    ensures
        sorted_states(final(col)@),
        added == !holds(old(col)@, p@),
        forall|q: Seq<AnnotatedVial<N>>|
            #[trigger] holds(final(col)@, q) <==> holds(old(col)@, q) || q == p@,
{
    broadcast use vstd::array::group_array_axioms;

    let ghost c0 = col@;
    let mut lo: usize = 0;
    let mut hi: usize = col.len();
    while lo < hi
        invariant
            col@ == c0,
            sorted_states(c0),
            lo <= hi <= c0.len(),
            forall|i: int| 0 <= i < lo ==> state_less(#[trigger] c0[i]@, p@),
            forall|i: int| hi <= i < c0.len() ==> state_less(p@, #[trigger] c0[i]@),
        decreases hi - lo,
    {
        let mid = lo + (hi - lo) / 2;
        match compare_states(&col[mid], &p) {
            Placement::Same => {
                proof {
                    assert(c0[mid as int]@ == p@);
                }
                return false;
            },
            Placement::Before => {
                proof {
                    assert forall|i: int| 0 <= i <= mid implies state_less(#[trigger] c0[i]@, p@) by {
                        if i < mid {
                            assert(state_less(c0[i]@, c0[mid as int]@));
                            lemma_state_less_transitive(c0[i]@, c0[mid as int]@, p@);
                        }
                    }
                }
                lo = mid + 1;
            },
            Placement::After => {
                proof {
                    assert forall|i: int| mid <= i < c0.len() implies state_less(p@, #[trigger] c0[i]@) by {
                        if i > mid {
                            assert(state_less(c0[mid as int]@, c0[i]@));
                            lemma_state_less_transitive(p@, c0[mid as int]@, c0[i]@);
                        }
                    }
                }
                hi = mid;
            },
        }
    }
    proof {
        assert forall|i: int| 0 <= i < c0.len() implies #[trigger] c0[i]@ != p@ by {
            lemma_state_less(c0[i]@, p@);
        }
    }
    col.insert(lo, p);
    proof {
        let c1 = col@;
        assert(c1 == c0.insert(lo as int, p));
        assert forall|i: int, j: int| 0 <= i < j < c1.len() implies state_less(
            #[trigger] c1[i]@,
            #[trigger] c1[j]@,
        ) by {
            if j < lo {
                assert(state_less(c0[i]@, c0[j]@));
            } else if j == lo {
            } else if i < lo {
                assert(state_less(c0[i]@, c0[j - 1]@));
            } else if i == lo {
            } else {
                assert(state_less(c0[i - 1]@, c0[j - 1]@));
            }
        }
        assert forall|q: Seq<AnnotatedVial<N>>|
            #[trigger] holds(c1, q) <==> holds(c0, q) || q == p@ by {
            if holds(c0, q) {
                let k = choose|k: int| 0 <= k < c0.len() && #[trigger] c0[k]@ == q;
                if k < lo {
                    assert(c1[k]@ == q);
                } else {
                    assert(c1[k + 1]@ == q);
                }
            }
            if q == p@ {
                assert(c1[lo as int]@ == q);
            }
            if holds(c1, q) && q != p@ {
                let k = choose|k: int| 0 <= k < c1.len() && #[trigger] c1[k]@ == q;
                if k < lo {
                    assert(c0[k]@ == q);
                } else if k > lo {
                    assert(c0[k - 1]@ == q);
                }
            }
        }
    }
    true
}

} // verus!
