use vstd::prelude::*;

use crate::puzzle::{
    Vial, after_pour, all_uniform, can_pour, colour_buffer, first_filled_from, lemma_shuffled_filled, play, plays_out, pours_at,
    shuffled, uniform, first_filled, last_empty, lemma_first_filled_from, lemma_last_empty_from,
    lemma_run_from_nonneg, lemma_run_from_prefix, lemma_vial_len, lemma_vial_with_cells,
    pour_amount, pour_colour, pour_vials, poured_dst, poured_src, run_from, settled,
};
use super::order::{av_order, canonical, lemma_av_order};
use super::{
    AnnotatedVial, annotated, block_count, blocks_dec, blocks_inc, changes_between, initial_state,
    is_move, lemma_block_count, lemma_changes_between, lemma_changes_uniform,
    lemma_map_values_multiset, lemma_shortest_reached, lemma_total_blocks_permutation, lemma_total_blocks_remove,
    lemma_reaches_unfold, lowering_moves, move_at, reaches, solution, solved_at, top_colour,
    total_blocks,
};

verus! {

proof fn lemma_changes_split(s: Seq<u8>, lo: int, mid: int, hi: int)
    requires
        lo <= mid < hi,
    ensures
        changes_between(s, lo, hi) == changes_between(s, lo, mid + 1) + changes_between(s, mid, hi),
    decreases hi - mid,
{
    if hi > mid + 1 {
        lemma_changes_split(s, lo, mid, hi - 1);
    }
}

proof fn lemma_changes_congruent(a: Seq<u8>, b: Seq<u8>, lo: int, hi: int)
    requires
        0 <= lo,
        hi <= a.len(),
        hi <= b.len(),
        forall|k: int| lo <= k < hi ==> a[k] == b[k],
    ensures
        changes_between(a, lo, hi) == changes_between(b, lo, hi),
    decreases hi - lo,
{
    if hi > lo + 1 {
        lemma_changes_congruent(a, b, lo, hi - 1);
    }
}

/// In a settled vial the cells above the first filled one are empty, those
/// from it down are filled, and the lowest empty cell is just above it.
pub proof fn lemma_settled(s: Seq<u8>)
    requires
        settled(s),
    ensures
        0 <= first_filled(s) <= s.len(),
        forall|k: int| 0 <= k < first_filled(s) ==> s[k] == 0,
        forall|k: int| first_filled(s) <= k < s.len() ==> s[k] != 0,
        last_empty(s) == first_filled(s) - 1,
{
    lemma_first_filled_from(s, 0);
    lemma_last_empty_from(s, s.len() - 1);
    let f = first_filled(s);
    assert forall|k: int| f <= k < s.len() implies s[k] != 0 by {
        assert(s[f] != 0);
    }
    let t = last_empty(s);
    if t >= f {
        assert(s[t] == 0);
    }
    if t < f - 1 {
        assert(s[f - 1] == 0);
    }
}

/// Emptying the top `k` cells of the top run of a settled vial keeps it
/// settled; the block count drops by one exactly when the whole run goes.
pub proof fn lemma_empty_top(s: Seq<u8>, k: int)
    requires
        settled(s),
        first_filled(s) < s.len(),
        1 <= k <= run_from(s, first_filled(s), s[first_filled(s)]),
    ensures
        ({
            let f = first_filled(s);
            let r = run_from(s, f, s[f]);
            let s2 = Seq::new(s.len(), |i: int| if f <= i < f + k { 0u8 } else { s[i] });
            &&& settled(s2)
            &&& first_filled(s2) == f + k
            &&& k < r ==> block_count(s2) == block_count(s) && top_colour(s2) == top_colour(s)
            &&& k == r ==> block_count(s2) == block_count(s) - 1
        }),
{
    let f = first_filled(s);
    let c = s[f];
    let n = s.len() as int;
    let r = run_from(s, f, c);
    lemma_settled(s);
    lemma_run_from_prefix(s, f, c);
    lemma_run_from_nonneg(s, f, c);
    assert(f + r <= n);
    let s2 = Seq::new(s.len(), |i: int| if f <= i < f + k { 0u8 } else { s[i] });
    assert forall|i: int, j: int| 0 <= i <= j < s2.len() && #[trigger] s2[i] != 0 implies #[trigger] s2[j]
        != 0 by {
        assert(s[j] != 0);
    }
    lemma_first_filled_from(s2, 0);
    if f + k < n {
        assert(s2[f + k] != 0);
        assert(first_filled(s2) == f + k);
        lemma_changes_congruent(s, s2, f + k, n);
        lemma_changes_split(s, f, f + k, n);
        lemma_changes_uniform(s, f, f + k + 1 - if k == r {
            1int
        } else {
            0int
        });
        if k < r {
            assert(forall|i: int| f <= i < f + k + 1 ==> #[trigger] s[i] == s[f]);
            assert(changes_between(s, f, f + k + 1) == 0);
        } else {
            assert(forall|i: int| f <= i < f + k ==> #[trigger] s[i] == s[f]);
            assert(run_from(s, f + r, c) == 0) by {
                assert(r == run_from(s, f, c));
                lemma_run_tail(s, f, c);
            }
            lemma_run_from_nonneg(s, f + k + 1, c);
            assert(s[f + k] != c);
            if k > 1 {
                lemma_changes_between(s, f, f + k);
            }
            assert(changes_between(s, f, f + k + 1) == 1);
        }
    } else {
        assert(k == r);
        assert(first_filled(s2) == n) by {
            if first_filled(s2) < n {
                assert(s2[first_filled(s2)] != 0);
            }
        }
        lemma_changes_uniform(s, f, n);
        assert(forall|i: int| f <= i < n ==> #[trigger] s[i] == s[f]);
    }
}

/// The cell just below a run of colour `c` does not hold `c`.
pub proof fn lemma_run_tail(s: Seq<u8>, i: int, c: u8)
    requires
        0 <= i,
    ensures
        run_from(s, i + run_from(s, i, c), c) == 0,
    decreases s.len() - i,
{
    if 0 <= i < s.len() && s[i] == c {
        lemma_run_tail(s, i + 1, c);
    }
}

/// Filling the `k` empty cells just above the contents of a settled vial
/// with colour `c` keeps it settled, puts `c` on top, and adds a block
/// unless `c` was already on top.
pub proof fn lemma_fill_top(d: Seq<u8>, k: int, c: u8)
    requires
        settled(d),
        1 <= k <= first_filled(d),
        c != 0,
    ensures
        ({
            let f = first_filled(d);
            let d2 = Seq::new(d.len(), |i: int| if f - k <= i < f { c } else { d[i] });
            &&& settled(d2)
            &&& first_filled(d2) == f - k
            &&& top_colour(d2) == Some(c)
            &&& block_count(d2) == block_count(d) + if f < d.len() && d[f] == c {
                0int
            } else {
                1int
            }
        }),
{
    let f = first_filled(d);
    let n = d.len() as int;
    lemma_settled(d);
    let d2 = Seq::new(d.len(), |i: int| if f - k <= i < f { c } else { d[i] });
    assert forall|i: int, j: int| 0 <= i <= j < d2.len() && #[trigger] d2[i] != 0 implies #[trigger] d2[j]
        != 0 by {
        if j >= f {
            assert(d[j] != 0);
        }
    }
    lemma_first_filled_from(d2, 0);
    assert(d2[f - k] == c);
    assert(first_filled(d2) == f - k);
    if f < n {
        lemma_changes_split(d2, f - k, f, n);
        lemma_changes_congruent(d, d2, f, n);
        lemma_changes_uniform(d2, f - k, f);
        assert(forall|i: int| f - k <= i < f ==> #[trigger] d2[i] == d2[f - k]);
        if k > 1 {
            lemma_changes_between(d2, f - k, f);
        }
        assert(changes_between(d2, f - k, f + 1) == changes_between(d2, f - k, f) + if d2[f] != d2[f
            - 1] {
            1int
        } else {
            0int
        });
    } else {
        lemma_changes_uniform(d2, f - k, n);
        assert(forall|i: int| f - k <= i < n ==> #[trigger] d2[i] == d2[f - k]);
    }
}

/// The annotation of a vial is exact: its vial is settled and its block
/// count and top colour are those of the vial.
pub open spec fn exact<const N: usize>(a: AnnotatedVial<N>) -> bool {
    &&& settled(a.vial@)
    &&& a.blocks == block_count(a.vial@)
    &&& a.lead_colour == top_colour(a.vial@)
}

/// Every vial of the state is exactly annotated.
pub open spec fn exact_state<const N: usize>(s: Seq<AnnotatedVial<N>>) -> bool {
    forall|k: int| 0 <= k < s.len() ==> exact(#[trigger] s[k])
}

proof fn lemma_total_blocks_update<const N: usize>(
    s: Seq<AnnotatedVial<N>>,
    i: int,
    a: AnnotatedVial<N>,
)
    requires
        0 <= i < s.len(),
    ensures
        total_blocks(s.update(i, a)) == total_blocks(s) - s[i].blocks + a.blocks,
{
    lemma_total_blocks_remove(s, i);
    lemma_total_blocks_remove(s.update(i, a), i);
    assert(s.update(i, a).remove(i) =~= s.remove(i));
}

/// Sum of `f` over the elements of `s`.
pub open spec fn sum_by<A>(s: Seq<A>, f: spec_fn(A) -> int) -> int
    decreases s.len(),
{
    if s.len() == 0 {
        0
    } else {
        sum_by(s.drop_last(), f) + f(s.last())
    }
}

proof fn lemma_sum_by_remove<A>(s: Seq<A>, f: spec_fn(A) -> int, i: int)
    requires
        0 <= i < s.len(),
    ensures
        sum_by(s, f) == sum_by(s.remove(i), f) + f(s[i]),
    decreases s.len(),
{
    if i == s.len() - 1 {
        assert(s.remove(i) =~= s.drop_last());
    } else {
        lemma_sum_by_remove(s.drop_last(), f, i);
        assert(s.remove(i).drop_last() =~= s.drop_last().remove(i));
        assert(s.remove(i).last() == s.last());
    }
}

/// A sum does not depend on the order of the elements.
proof fn lemma_sum_by_permutation<A>(a: Seq<A>, b: Seq<A>, f: spec_fn(A) -> int)
    requires
        a.to_multiset() == b.to_multiset(),
    ensures
        sum_by(a, f) == sum_by(b, f),
    decreases a.len(),
{
    broadcast use vstd::seq_lib::group_to_multiset_ensures;
    broadcast use vstd::multiset::group_multiset_axioms;

    vstd::seq_lib::to_multiset_len(a);
    vstd::seq_lib::to_multiset_len(b);
    if a.len() > 0 {
        let x = a.last();
        assert(a.contains(x)) by {
            assert(a[a.len() - 1] == x);
        }
        vstd::seq_lib::to_multiset_contains(a, x);
        vstd::seq_lib::to_multiset_contains(b, x);
        let i = choose|i: int| 0 <= i < b.len() && b[i] == x;
        vstd::seq_lib::to_multiset_remove(b, i);
        vstd::seq_lib::to_multiset_remove(a, a.len() - 1);
        assert(a.remove(a.len() - 1) =~= a.drop_last());
        lemma_sum_by_permutation(a.drop_last(), b.remove(i), f);
        lemma_sum_by_remove(b, f, i);
    }
}

proof fn lemma_sum_by_update<A>(s: Seq<A>, f: spec_fn(A) -> int, i: int, x: A)
    requires
        0 <= i < s.len(),
    ensures
        sum_by(s.update(i, x), f) == sum_by(s, f) - f(s[i]) + f(x),
{
    lemma_sum_by_remove(s, f, i);
    lemma_sum_by_remove(s.update(i, x), f, i);
    assert(s.update(i, x).remove(i) =~= s.remove(i));
}

/// Number of filled cells of a settled vial: those from its topmost filled
/// cell down.
pub open spec fn filled_cells(s: Seq<u8>) -> int {
    s.len() - first_filled(s)
}

/// Number of filled cells of a state of settled vials.
pub open spec fn total_filled<const N: usize>(s: Seq<AnnotatedVial<N>>) -> int {
    sum_by(s, |a: AnnotatedVial<N>| filled_cells(a.vial@))
}

/// Replacing two vials of an exactly annotated state by exactly annotated
/// ones and putting it in canonical order gives an exactly annotated state
/// whose block count changes by the difference.
proof fn lemma_replace_two<const N: usize>(
    s: Seq<AnnotatedVial<N>>,
    i: int,
    j: int,
    a: AnnotatedVial<N>,
    b: AnnotatedVial<N>,
)
    requires
        0 <= i < s.len(),
        0 <= j < s.len(),
        i != j,
        exact_state(s),
        exact(a),
        exact(b),
    ensures
        exact_state(canonical(s.update(i, a).update(j, b))),
        total_blocks(canonical(s.update(i, a).update(j, b))) == total_blocks(s) - s[i].blocks
            - s[j].blocks + a.blocks + b.blocks,
        total_filled(canonical(s.update(i, a).update(j, b))) == total_filled(s) - filled_cells(
            s[i].vial@,
        ) - filled_cells(s[j].vial@) + filled_cells(a.vial@) + filled_cells(b.vial@),
{
    let u1 = s.update(i, a);
    let u = u1.update(j, b);
    lemma_total_blocks_update(s, i, a);
    lemma_total_blocks_update(u1, j, b);
    lemma_av_order::<N>();
    u.lemma_sort_by_ensures(av_order::<N>());
    lemma_total_blocks_permutation(u, canonical(u));
    let f = |x: AnnotatedVial<N>| filled_cells(x.vial@);
    lemma_sum_by_update(s, f, i, a);
    lemma_sum_by_update(u1, f, j, b);
    lemma_sum_by_permutation(u, canonical(u), f);
    assert(exact_state(u));
    let p = canonical(u);
    assert forall|k: int| 0 <= k < p.len() implies exact(#[trigger] p[k]) by {
        assert(p.contains(p[k]));
        assert(u.contains(p[k]));
        let m = choose|m: int| 0 <= m < u.len() && u[m] == p[k];
        assert(exact(u[m]));
    }
    vstd::seq_lib::to_multiset_len(u);
    vstd::seq_lib::to_multiset_len(p);
}

/// Law: a move of the solver from an exactly annotated state leads to an
/// exactly annotated state with as many filled cells; a move that lowers
/// the block count lowers it by one, any other keeps it. (So the wrapping in `blocks_dec` and
/// `blocks_inc` never happens from such states.)
pub proof fn law_move_keeps_exact<const N: usize>(s: Seq<AnnotatedVial<N>>, i: int, j: int)
    requires
        exact_state(s),
    ensures
        match move_at(s, i, j) {
            Some(m) => exact_state(m.0) && total_blocks(m.0) == total_blocks(s) - if m.1 {
                1int
            } else {
                0int
            } && total_filled(m.0) == total_filled(s),
            None => true,
        },
{
    broadcast use lemma_vial_len;

    reveal(move_at);
    if move_at(s, i, j) is Some {
        let src = s[i];
        let dst = s[j];
        let sv = src.vial@;
        let dv = dst.vial@;
        assert(exact(src));
        assert(exact(dst));
        lemma_settled(sv);
        lemma_settled(dv);
        lemma_first_filled_from(sv, 0);
        let f = first_filled(sv);
        let fd = first_filled(dv);
        let sc = sv[f];
        assert(src.lead_colour == Some(sc));
        let r = run_from(sv, f, sc);
        lemma_run_from_prefix(sv, f, sc);
        lemma_run_from_nonneg(sv, f + 1, sc);
        assert(r >= 1);
        assert(pour_colour(sv) == sc);
        lemma_block_count(src.vial);
        lemma_block_count(dst.vial);
        let m = pour_amount(sv, dv);
        let pv = pour_vials(src.vial, dst.vial);
        if fd >= 1 {
            assert(can_pour(sv, dv));
            assert(m == if r <= fd {
                r
            } else {
                fd
            });
            lemma_vial_with_cells(src.vial, poured_src(sv, dv));
            lemma_vial_with_cells(src.vial, poured_dst(sv, dv));
            assert(pv.0@ =~= Seq::new(N as nat, |k: int| if f <= k < f + m { 0u8 } else { sv[k] }));
            assert(pv.1@ =~= Seq::new(N as nat, |k: int| if fd - m <= k < fd { sc } else { dv[k] }));
            lemma_empty_top(sv, m);
            lemma_fill_top(dv, m, sc);
            if fd < N {
                lemma_changes_between(dv, fd, N as int);
            }
        }
        let emptied = AnnotatedVial {
            vial: pv.0,
            blocks: blocks_dec(src.blocks),
            lead_colour: top_colour(pv.0@),
        };
        let covered = AnnotatedVial {
            vial: pv.1,
            blocks: blocks_inc(dst.blocks),
            lead_colour: Some(sc),
        };
        let merged = AnnotatedVial { vial: pv.1, blocks: dst.blocks, lead_colour: dst.lead_colour };
        match dst.lead_colour {
            None => {
                assert(fd == N);
                lemma_replace_two(s, i, j, emptied, covered);
            },
            Some(dc) => {
                assert(dc == dv[fd]);
                if r <= fd {
                    if dc == sc {
                        lemma_replace_two(s, i, j, emptied, merged);
                    } else {
                        lemma_replace_two(s, i, j, emptied, covered);
                    }
                } else {
                    let kept = AnnotatedVial {
                        vial: pv.0,
                        blocks: src.blocks,
                        lead_colour: src.lead_colour,
                    };
                    if fd == 0 {
                        assert(kept == src);
                        assert(merged == dst);
                    }
                    lemma_replace_two(s, i, j, kept, merged);
                }
            },
        }
    }
}

/// Law: with settled vials, the solver starts from an exactly annotated
/// state.
pub proof fn law_initial_state_exact<const N: usize>(vials: Seq<Vial<N>>)
    requires
        forall|k: int| 0 <= k < vials.len() ==> settled(#[trigger] vials[k]@),
    ensures
        exact_state(initial_state(vials)),
{
    let u = vials.map_values(|v: Vial<N>| annotated(v));
    lemma_av_order::<N>();
    u.lemma_sort_by_ensures(av_order::<N>());
    let p = canonical(u);
    assert forall|k: int| 0 <= k < p.len() implies exact(#[trigger] p[k]) by {
        assert(p.contains(p[k]));
        assert(u.contains(p[k]));
        let m = choose|m: int| 0 <= m < u.len() && u[m] == p[k];
        assert(u[m] == annotated(vials[m]));
        lemma_block_count(vials[m]);
    }
}

/// Law: every state the solver reaches from an exactly annotated start is
/// exactly annotated and has as many filled cells, and `x` lowering moves
/// lower its block count by `x`.
pub proof fn law_reached_exact<const N: usize>(
    init: Seq<AnnotatedVial<N>>,
    mx: int,
    y: int,
    x: int,
    p: Seq<AnnotatedVial<N>>,
)
    requires
        exact_state(init),
        reaches(init, mx, y, x, p),
    ensures
        exact_state(p),
        total_blocks(p) == total_blocks(init) - x,
        total_filled(p) == total_filled(init),
    decreases y, x,
{
    if y == 0 && x == 0 && p == init {
    } else if y > 0 && x < mx && exists|s: Seq<AnnotatedVial<N>>|
        reaches(init, mx, y - 1, x, s) && #[trigger] is_move(s, p, false) {
        let s = choose|s: Seq<AnnotatedVial<N>>|
            reaches(init, mx, y - 1, x, s) && #[trigger] is_move(s, p, false);
        law_reached_exact(init, mx, y - 1, x, s);
        let (a, b) = choose|a: int, b: int| #[trigger] move_at(s, a, b) == Some((p, false));
        law_move_keeps_exact(s, a, b);
    } else {
        let s = choose|s: Seq<AnnotatedVial<N>>|
            reaches(init, mx, y, x - 1, s) && #[trigger] is_move(s, p, true);
        law_reached_exact(init, mx, y, x - 1, s);
        let (a, b) = choose|a: int, b: int| #[trigger] move_at(s, a, b) == Some((p, true));
        law_move_keeps_exact(s, a, b);
    }
}

/// Law: for settled vials, the moves `solve` counts lead to an arrangement
/// with exactly one block per colour: `solution` is the least number of
/// moves to a state of `c` blocks.
pub proof fn law_solution_ends_with_one_block_per_colour<const N: usize>(
    vials: Seq<Vial<N>>,
    c: int,
    k: int,
)
    requires
        forall|i: int| 0 <= i < vials.len() ==> settled(#[trigger] vials[i]@),
        lowering_moves(vials, c) >= 0,
        solution(vials, c) == Some(k),
    ensures
        exists|p: Seq<AnnotatedVial<N>>|
            #[trigger] reaches(
                initial_state(vials),
                lowering_moves(vials, c),
                k - lowering_moves(vials, c),
                lowering_moves(vials, c),
                p,
            ) && exact_state(p) && total_blocks(p) == c,
{
    let init = initial_state(vials);
    let mx = lowering_moves(vials, c);
    law_initial_state_exact(vials);
    lemma_shortest_reached(init, mx, k);
    let p = choose|p: Seq<AnnotatedVial<N>>| #[trigger] reaches(init, mx, k - mx, mx, p);
    law_reached_exact(init, mx, k - mx, mx, p);
}

proof fn lemma_annotated_pair<const N: usize>(
    s: Seq<AnnotatedVial<N>>,
    i: int,
    j: int,
    a: AnnotatedVial<N>,
    b: AnnotatedVial<N>,
)
    requires
        0 <= i < s.len(),
        0 <= j < s.len(),
        i != j,
        exact_state(canonical(s.update(i, a).update(j, b))),
    ensures
        canonical(s.update(i, a).update(j, b)) == canonical(
            s.update(i, annotated(a.vial)).update(j, annotated(b.vial)),
        ),
{
    let u = s.update(i, a).update(j, b);
    lemma_av_order::<N>();
    u.lemma_sort_by_ensures(av_order::<N>());
    let p = canonical(u);
    assert(u[i] == a && u[j] == b);
    assert(u.contains(a) && u.contains(b));
    vstd::seq_lib::to_multiset_contains(u, a);
    vstd::seq_lib::to_multiset_contains(u, b);
    vstd::seq_lib::to_multiset_contains(p, a);
    vstd::seq_lib::to_multiset_contains(p, b);
    let ka = choose|k: int| 0 <= k < p.len() && p[k] == a;
    let kb = choose|k: int| 0 <= k < p.len() && p[k] == b;
    assert(exact(p[ka]) && exact(p[kb]));
    assert(a == annotated(a.vial));
    assert(b == annotated(b.vial));
}

/// The solver pours vial `i` of `s` into vial `j`: they are two vials of
/// `s`, vial `i` holds something, the move is not a single block into an
/// empty vial, and it does not split the top run of vial `i` onto another
/// colour (a run longer than the empty cells of vial `j`).
pub open spec fn admissible<const N: usize>(s: Seq<AnnotatedVial<N>>, i: int, j: int) -> bool {
    &&& 0 <= i < s.len()
    &&& 0 <= j < s.len()
    &&& i != j
    &&& s[i].lead_colour is Some
    &&& !(s[j].lead_colour is None && s[i].blocks == 1)
    &&& !(run_from(s[i].vial@, first_filled(s[i].vial@), pour_colour(s[i].vial@)) > first_filled(
        s[j].vial@,
    ) && s[j].lead_colour != s[i].lead_colour)
}

/// The state after pouring vial `i` of `s` into vial `j`: the two vials
/// after the pour, annotated afresh, put with the others in canonical order.
pub open spec fn poured_state<const N: usize>(s: Seq<AnnotatedVial<N>>, i: int, j: int) -> Seq<
    AnnotatedVial<N>,
> {
    canonical(
        s.update(i, annotated(pour_vials(s[i].vial, s[j].vial).0)).update(
            j,
            annotated(pour_vials(s[i].vial, s[j].vial).1),
        ),
    )
}

/// Pouring vial `i` of `s` into vial `j` is admissible and leads to `p`.
pub open spec fn pours_to<const N: usize>(
    s: Seq<AnnotatedVial<N>>,
    i: int,
    j: int,
    p: Seq<AnnotatedVial<N>>,
) -> bool {
    admissible(s, i, j) && p == poured_state(s, i, j)
}

/// Some admissible pour of `s` leads to `p`.
pub open spec fn by_some_pour<const N: usize>(s: Seq<AnnotatedVial<N>>, p: Seq<AnnotatedVial<N>>) -> bool {
    exists|i: int, j: int| #[trigger] pours_to(s, i, j, p)
}

/// Law: from an exactly annotated state, the solver moves from vial `i` to
/// vial `j` exactly when the move is admissible, and it leads to the poured
/// state.
pub proof fn law_move_is_annotated_pour<const N: usize>(s: Seq<AnnotatedVial<N>>, i: int, j: int)
    requires
        exact_state(s),
        0 <= i < s.len(),
        0 <= j < s.len(),
    ensures
        move_at(s, i, j) is Some <==> admissible(s, i, j),
        move_at(s, i, j) matches Some(m) ==> m.0 == poured_state(s, i, j),
{
    broadcast use lemma_vial_len;

    reveal(move_at);
    law_move_keeps_exact(s, i, j);
    let src = s[i];
    let dst = s[j];
    assert(exact(src));
    assert(exact(dst));
    lemma_settled(src.vial@);
    lemma_settled(dst.vial@);
    lemma_first_filled_from(src.vial@, 0);
    lemma_first_filled_from(dst.vial@, 0);
    let f = first_filled(src.vial@);
    if f < N {
        let c = src.vial@[f];
        assert(src.lead_colour == Some(c));
        assert(pour_colour(src.vial@) == c);
        lemma_run_from_prefix(src.vial@, f, c);
        lemma_run_from_nonneg(src.vial@, f, c);
    }
    if move_at(s, i, j) is Some {
        let pv = pour_vials(src.vial, dst.vial);
        let sc = src.lead_colour->0;
        let emptied = AnnotatedVial {
            vial: pv.0,
            blocks: blocks_dec(src.blocks),
            lead_colour: top_colour(pv.0@),
        };
        let covered = AnnotatedVial {
            vial: pv.1,
            blocks: blocks_inc(dst.blocks),
            lead_colour: Some(sc),
        };
        let merged = AnnotatedVial { vial: pv.1, blocks: dst.blocks, lead_colour: dst.lead_colour };
        let kept = AnnotatedVial { vial: pv.0, blocks: src.blocks, lead_colour: src.lead_colour };
        let m = move_at(s, i, j)->0;
        if m.0 == canonical(s.update(i, emptied).update(j, covered)) {
            lemma_annotated_pair(s, i, j, emptied, covered);
        } else if m.0 == canonical(s.update(i, emptied).update(j, merged)) {
            lemma_annotated_pair(s, i, j, emptied, merged);
        } else {
            lemma_annotated_pair(s, i, j, kept, merged);
        }
    }
}

/// The vials of a state, without their annotations.
pub open spec fn vials_of<const N: usize>(s: Seq<AnnotatedVial<N>>) -> Seq<Vial<N>> {
    s.map_values(|a: AnnotatedVial<N>| a.vial)
}

proof fn lemma_vials_after_replace<const N: usize>(
    s: Seq<AnnotatedVial<N>>,
    i: int,
    j: int,
    a: AnnotatedVial<N>,
    b: AnnotatedVial<N>,
)
    requires
        0 <= i < s.len(),
        0 <= j < s.len(),
        i != j,
        a.vial == pour_vials(s[i].vial, s[j].vial).0,
        b.vial == pour_vials(s[i].vial, s[j].vial).1,
    ensures
        vials_of(canonical(s.update(i, a).update(j, b))).to_multiset() == after_pour(
            vials_of(s),
            i,
            j,
        ).to_multiset(),
{
    let u = s.update(i, a).update(j, b);
    lemma_av_order::<N>();
    u.lemma_sort_by_ensures(av_order::<N>());
    lemma_map_values_multiset(u, canonical(u), |x: AnnotatedVial<N>| x.vial);
    assert(vials_of(u) =~= after_pour(vials_of(s), i, j));
}

/// Law: every move of the solver is a pour of the puzzle. The vials of the
/// state a move leads to are, in some order, the vials that `after_pour`
/// gives for the state it starts from.
pub proof fn law_move_is_pour<const N: usize>(s: Seq<AnnotatedVial<N>>, i: int, j: int)
    ensures
        match move_at(s, i, j) {
            Some(m) => vials_of(m.0).to_multiset() == after_pour(vials_of(s), i, j).to_multiset(),
            None => true,
        },
{
    reveal(move_at);
    if move_at(s, i, j) is Some {
        let src = s[i];
        let dst = s[j];
        let pv = pour_vials(src.vial, dst.vial);
        let sc = src.lead_colour->0;
        let emptied = AnnotatedVial {
            vial: pv.0,
            blocks: blocks_dec(src.blocks),
            lead_colour: top_colour(pv.0@),
        };
        let covered = AnnotatedVial {
            vial: pv.1,
            blocks: blocks_inc(dst.blocks),
            lead_colour: Some(sc),
        };
        let merged = AnnotatedVial { vial: pv.1, blocks: dst.blocks, lead_colour: dst.lead_colour };
        let kept = AnnotatedVial { vial: pv.0, blocks: src.blocks, lead_colour: src.lead_colour };
        lemma_vials_after_replace(s, i, j, emptied, covered);
        lemma_vials_after_replace(s, i, j, emptied, merged);
        lemma_vials_after_replace(s, i, j, kept, merged);
    }
}

/// An exactly annotated vial of height `N > 0` holds at most `N` cells per
/// block, and exactly that many only when it is empty or one full block.
proof fn lemma_exact_filled<const N: usize>(a: AnnotatedVial<N>)
    requires
        exact(a),
        N > 0,
    ensures
        0 <= filled_cells(a.vial@) <= N * a.blocks,
        filled_cells(a.vial@) == N * a.blocks ==> uniform(a.vial@),
{
    broadcast use lemma_vial_len;

    let s = a.vial@;
    lemma_settled(s);
    lemma_block_count(a.vial);
    let f = first_filled(s);
    if f < N {
        assert(N * a.blocks >= N) by (nonlinear_arith)
            requires
                a.blocks >= 1,
        ;
        if filled_cells(s) == N * a.blocks {
            assert(a.blocks == 1) by (nonlinear_arith)
                requires
                    N * a.blocks <= N,
                    a.blocks >= 1,
                    N > 0,
            ;
            assert(f == 0);
            lemma_changes_uniform(s, 0, N as int);
        }
    } else {
        assert(s[0] == 0);
    }
}

/// A state of exactly annotated vials of height `N > 0` holds at most `N`
/// cells per block, and exactly that many only when every vial is uniform.
proof fn lemma_state_filled<const N: usize>(s: Seq<AnnotatedVial<N>>)
    requires
        exact_state(s),
        N > 0,
    ensures
        total_filled(s) <= N * total_blocks(s),
        total_filled(s) == N * total_blocks(s) ==> forall|k: int|
            0 <= k < s.len() ==> uniform(#[trigger] s[k].vial@),
    decreases s.len(),
{
    if s.len() > 0 {
        let dl = s.drop_last();
        let last = s.last();
        assert(forall|k: int| 0 <= k < dl.len() ==> #[trigger] dl[k] == s[k]);
        assert(exact(s[s.len() - 1]));
        lemma_state_filled(dl);
        lemma_exact_filled(last);
        assert(N * total_blocks(s) == N * total_blocks(dl) + N * last.blocks) by (nonlinear_arith)
            requires
                total_blocks(s) == total_blocks(dl) + last.blocks,
        ;
        assert(total_filled(s) == total_filled(dl) + filled_cells(last.vial@));
        if total_filled(s) == N * total_blocks(s) {
            assert forall|k: int| 0 <= k < s.len() implies uniform(#[trigger] s[k].vial@) by {
                if k < dl.len() {
                    assert(uniform(dl[k].vial@));
                }
            }
        }
    }
}

/// Number of filled cells of settled vials.
pub open spec fn filled_total<const N: usize>(vials: Seq<Vial<N>>) -> int {
    sum_by(vials, |v: Vial<N>| filled_cells(v@))
}

/// Number of cells of `s` that hold `x`.
pub open spec fn cells_of(s: Seq<u8>, x: u8) -> int
    decreases s.len(),
{
    if s.len() == 0 {
        0
    } else {
        cells_of(s.drop_last(), x) + if s.last() == x {
            1int
        } else {
            0int
        }
    }
}

/// Number of cells of `s` that hold one of the colours `1..=c`.
pub open spec fn colour_cells(s: Seq<u8>, c: int) -> int
    decreases c,
{
    if c <= 0 {
        0
    } else {
        colour_cells(s, c - 1) + cells_of(s, c as u8)
    }
}

/// Number of cells of colour `x` over all the vials.
pub open spec fn colour_total<const N: usize>(vials: Seq<Vial<N>>, x: u8) -> int {
    sum_by(vials, |v: Vial<N>| cells_of(v@, x))
}

/// Number of cells over all the vials that hold one of the colours `1..=c`.
pub open spec fn colours_total<const N: usize>(vials: Seq<Vial<N>>, c: int) -> int
    decreases c,
{
    if c <= 0 {
        0
    } else {
        colours_total(vials, c - 1) + colour_total(vials, c as u8)
    }
}

/// The vials hold only the colours `1..=c` (and empty cells), each colour
/// in exactly `N` cells.
pub open spec fn colours_fill<const N: usize>(vials: Seq<Vial<N>>, c: int) -> bool {
    &&& forall|i: int, k: int|
        0 <= i < vials.len() && 0 <= k < vials[i]@.len() ==> #[trigger] vials[i]@[k] <= c
    &&& forall|x: u8| 1 <= x <= c ==> #[trigger] colour_total(vials, x) == N
}

proof fn lemma_first_filled_is(s: Seq<u8>, i: int, f: int)
    requires
        0 <= i <= f <= s.len(),
        forall|k: int| i <= k < f ==> s[k] == 0,
        f == s.len() || s[f] != 0,
    ensures
        first_filled_from(s, i) == f,
    decreases f - i,
{
    if i < f {
        lemma_first_filled_is(s, i + 1, f);
    }
}

/// Dropping the bottom cell of a settled vial leaves it settled, with one
/// filled cell fewer when that cell was filled.
proof fn lemma_filled_cells_last(s: Seq<u8>)
    requires
        settled(s),
        s.len() > 0,
    ensures
        settled(s.drop_last()),
        filled_cells(s) == filled_cells(s.drop_last()) + if s.last() != 0 {
            1int
        } else {
            0int
        },
{
    let d = s.drop_last();
    let n = s.len() as int;
    assert(forall|k: int| 0 <= k < d.len() ==> #[trigger] d[k] == s[k]);
    assert forall|i: int, j: int| 0 <= i <= j < d.len() && #[trigger] d[i] != 0 implies #[trigger] d[j]
        != 0 by {
        assert(s[i] != 0);
    }
    lemma_first_filled_from(d, 0);
    let f = first_filled(d);
    if s.last() != 0 {
        assert(s[n - 1] != 0);
        assert forall|k: int| 0 <= k < f implies s[k] == 0 by {
            assert(d[k] == 0);
        }
        if f < n - 1 {
            assert(d[f] != 0);
        }
        lemma_first_filled_is(s, 0, f);
    } else {
        assert(s[n - 1] == 0);
        assert forall|k: int| 0 <= k < n implies s[k] == 0 by {
            if s[k] != 0 {
                assert(s[n - 1] != 0);
            }
        }
        lemma_first_filled_is(s, 0, n);
        lemma_first_filled_is(d, 0, n - 1);
    }
}

proof fn lemma_colour_cells_last(s: Seq<u8>, c: int)
    requires
        s.len() > 0,
        0 <= c <= 255,
    ensures
        colour_cells(s, c) == colour_cells(s.drop_last(), c) + if 1 <= s.last() <= c {
            1int
        } else {
            0int
        },
    decreases c,
{
    if c > 0 {
        lemma_colour_cells_last(s, c - 1);
    }
}

proof fn lemma_colour_cells_empty(s: Seq<u8>, c: int)
    requires
        s.len() == 0,
    ensures
        colour_cells(s, c) == 0,
    decreases c,
{
    if c > 0 {
        lemma_colour_cells_empty(s, c - 1);
    }
}

/// In a settled vial holding only colours up to `c`, the filled cells are
/// those of the colours `1..=c`.
proof fn lemma_vial_colour_cells(s: Seq<u8>, c: int)
    requires
        settled(s),
        0 <= c <= 255,
        forall|k: int| 0 <= k < s.len() ==> #[trigger] s[k] <= c,
    ensures
        filled_cells(s) == colour_cells(s, c),
    decreases s.len(),
{
    if s.len() == 0 {
        lemma_colour_cells_empty(s, c);
        lemma_first_filled_is(s, 0, 0);
    } else {
        let d = s.drop_last();
        lemma_filled_cells_last(s);
        assert(forall|k: int| 0 <= k < d.len() ==> #[trigger] d[k] == s[k]);
        lemma_vial_colour_cells(d, c);
        lemma_colour_cells_last(s, c);
        assert(s.last() == s[s.len() - 1]);
    }
}

proof fn lemma_colours_total_last<const N: usize>(vials: Seq<Vial<N>>, c: int)
    requires
        vials.len() > 0,
        0 <= c <= 255,
    ensures
        colours_total(vials, c) == colours_total(vials.drop_last(), c) + colour_cells(
            vials.last()@,
            c,
        ),
    decreases c,
{
    if c > 0 {
        lemma_colours_total_last(vials, c - 1);
    }
}

proof fn lemma_colours_total_empty<const N: usize>(vials: Seq<Vial<N>>, c: int)
    requires
        vials.len() == 0,
    ensures
        colours_total(vials, c) == 0,
    decreases c,
{
    if c > 0 {
        lemma_colours_total_empty(vials, c - 1);
    }
}

proof fn lemma_filled_total_colours<const N: usize>(vials: Seq<Vial<N>>, c: int)
    requires
        forall|i: int| 0 <= i < vials.len() ==> settled(#[trigger] vials[i]@),
        0 <= c <= 255,
        forall|i: int, k: int|
            0 <= i < vials.len() && 0 <= k < vials[i]@.len() ==> #[trigger] vials[i]@[k] <= c,
    ensures
        filled_total(vials) == colours_total(vials, c),
    decreases vials.len(),
{
    if vials.len() == 0 {
        lemma_colours_total_empty(vials, c);
    } else {
        let d = vials.drop_last();
        let last = vials[vials.len() - 1];
        assert(vials.last() == last);
        assert(forall|i: int| 0 <= i < d.len() ==> #[trigger] d[i] == vials[i]);
        assert forall|i: int, k: int|
            0 <= i < d.len() && 0 <= k < d[i]@.len() implies #[trigger] d[i]@[k] <= c by {
            assert(vials[i]@[k] <= c);
        }
        lemma_filled_total_colours(d, c);
        lemma_colours_total_last(vials, c);
        assert forall|k: int| 0 <= k < last@.len() implies #[trigger] last@[k] <= c by {
            assert(vials[vials.len() - 1]@[k] <= c);
        }
        lemma_vial_colour_cells(last@, c);
    }
}

proof fn lemma_colours_total_value<const N: usize>(vials: Seq<Vial<N>>, c: int)
    requires
        0 <= c <= 255,
        forall|x: u8| 1 <= x <= c ==> #[trigger] colour_total(vials, x) == N,
    ensures
        colours_total(vials, c) == c * N,
    decreases c,
{
    if c > 0 {
        lemma_colours_total_value(vials, c - 1);
        assert(colour_total(vials, c as u8) == N);
        assert((c - 1) * N + N == c * N) by (nonlinear_arith);
    } else {
        assert(c * N == 0) by (nonlinear_arith)
            requires
                c == 0,
        ;
    }
}

/// Settled vials that hold the colours `1..=c` (with `c <= 255`), each in
/// exactly `N` cells, hold `c * N` filled cells.
pub proof fn lemma_colours_fill_cells<const N: usize>(vials: Seq<Vial<N>>, c: int)
    requires
        forall|i: int| 0 <= i < vials.len() ==> settled(#[trigger] vials[i]@),
        0 <= c <= 255,
        colours_fill(vials, c),
    ensures
        filled_total(vials) == c * N,
{
    lemma_filled_total_colours(vials, c);
    lemma_colours_total_value(vials, c);
}

/// The solver's start holds the filled cells of the vials.
proof fn lemma_total_filled_start<const N: usize>(vials: Seq<Vial<N>>)
    ensures
        total_filled(initial_state(vials)) == filled_total(vials),
{
    let u = vials.map_values(|v: Vial<N>| annotated(v));
    lemma_total_filled_annotated(vials);
    lemma_av_order::<N>();
    u.lemma_sort_by_ensures(av_order::<N>());
    lemma_sum_by_permutation(u, canonical(u), |a: AnnotatedVial<N>| filled_cells(a.vial@));
}

proof fn lemma_total_filled_annotated<const N: usize>(vials: Seq<Vial<N>>)
    ensures
        total_filled(vials.map_values(|v: Vial<N>| annotated(v))) == filled_total(vials),
    decreases vials.len(),
{
    let u = vials.map_values(|v: Vial<N>| annotated(v));
    if vials.len() > 0 {
        let dl = vials.drop_last();
        lemma_total_filled_annotated(dl);
        assert(u.drop_last() =~= dl.map_values(|v: Vial<N>| annotated(v)));
        assert(u.last() == annotated(vials.last()));
    }
}

/// Vials whose first `c` are full and whose others are empty hold `c * N`
/// filled cells.
proof fn lemma_filled_total_dealt<const N: usize>(vials: Seq<Vial<N>>, c: int)
    requires
        0 <= c <= vials.len(),
        forall|i: int| 0 <= i < c ==> first_filled(#[trigger] vials[i]@) == 0,
        forall|i: int| c <= i < vials.len() ==> first_filled(#[trigger] vials[i]@) == N,
    ensures
        filled_total(vials) == c * N,
    decreases vials.len(),
{
    broadcast use lemma_vial_len;

    if vials.len() > 0 {
        let dl = vials.drop_last();
        assert(forall|k: int| 0 <= k < dl.len() ==> #[trigger] dl[k] == vials[k]);
        assert(vials.last() == vials[vials.len() - 1]);
        let last = vials[vials.len() - 1];
        if c == vials.len() {
            lemma_filled_total_dealt(dl, c - 1);
            assert(filled_cells(last@) == N);
            assert((c - 1) * N + N == c * N) by (nonlinear_arith);
        } else {
            lemma_filled_total_dealt(dl, c);
            assert(filled_cells(last@) == 0);
        }
    } else {
        assert(c * N == 0) by (nonlinear_arith)
            requires
                c == 0,
        ;
    }
}

/// Pouring between two vials of `b`, and between two vials that hold the
/// same in `a`, a rearrangement of `b`, gives the same vials.
proof fn lemma_after_pour_permuted<const N: usize>(a: Seq<Vial<N>>, b: Seq<Vial<N>>, i: int, j: int)
    requires
        a.to_multiset() == b.to_multiset(),
        0 <= i < b.len(),
        0 <= j < b.len(),
        i != j,
    ensures
        exists|i2: int, j2: int|
            0 <= i2 < a.len() && 0 <= j2 < a.len() && i2 != j2 && a[i2] == b[i] && a[j2] == b[j]
                && #[trigger] after_pour(a, i2, j2).to_multiset() == after_pour(
                b,
                i,
                j,
            ).to_multiset(),
{
    broadcast use vstd::multiset::group_multiset_axioms;

    vstd::seq_lib::to_multiset_len(a);
    vstd::seq_lib::to_multiset_len(b);
    assert(b.contains(b[i]));
    vstd::seq_lib::to_multiset_contains(b, b[i]);
    vstd::seq_lib::to_multiset_contains(a, b[i]);
    let i2 = choose|i2: int| 0 <= i2 < a.len() && a[i2] == b[i];
    vstd::seq_lib::to_multiset_remove(a, i2);
    vstd::seq_lib::to_multiset_remove(b, i);
    let ar = a.remove(i2);
    let br = b.remove(i);
    let jb = if j < i {
        j
    } else {
        j - 1
    };
    assert(br[jb] == b[j]);
    assert(br.contains(b[j]));
    vstd::seq_lib::to_multiset_contains(br, b[j]);
    vstd::seq_lib::to_multiset_contains(ar, b[j]);
    let m = choose|m: int| 0 <= m < ar.len() && ar[m] == b[j];
    let j2 = if m < i2 {
        m
    } else {
        m + 1
    };
    assert(a[j2] == b[j]);
    let pv = pour_vials(b[i], b[j]);
    vstd::seq_lib::to_multiset_update(a, i2, pv.0);
    vstd::seq_lib::to_multiset_update(a.update(i2, pv.0), j2, pv.1);
    vstd::seq_lib::to_multiset_update(b, i, pv.0);
    vstd::seq_lib::to_multiset_update(b.update(i, pv.0), j, pv.1);
    assert(after_pour(a, i2, j2).to_multiset() =~= after_pour(b, i, j).to_multiset());
}

/// A move of the solver that pours something, from a state whose vials
/// some pours that all succeed give (in some order), is one more pour that
/// succeeds.
proof fn lemma_move_played<const N: usize>(
    vials: Seq<Vial<N>>,
    ps: Seq<(int, int)>,
    s: Seq<AnnotatedVial<N>>,
    i: int,
    j: int,
)
    requires
        plays_out(vials, ps),
        play(vials, ps).to_multiset() == vials_of(s).to_multiset(),
        move_at(s, i, j) is Some,
        0 <= i < s.len(),
        0 <= j < s.len(),
        can_pour(s[i].vial@, s[j].vial@),
    ensures
        exists|q: (int, int)|
            plays_out(vials, ps.push(q)) && #[trigger] play(vials, ps.push(q)).to_multiset()
                == vials_of((move_at(s, i, j)->0).0).to_multiset(),
{
    reveal(move_at);
    law_move_is_pour(s, i, j);
    let a = play(vials, ps);
    let b = vials_of(s);
    lemma_after_pour_permuted(a, b, i, j);
    let (i2, j2) = choose|i2: int, j2: int|
        0 <= i2 < a.len() && 0 <= j2 < a.len() && i2 != j2 && a[i2] == b[i] && a[j2] == b[j]
            && #[trigger] after_pour(a, i2, j2).to_multiset() == after_pour(b, i, j).to_multiset();
    let qs = ps.push((i2, j2));
    assert(qs.drop_last() =~= ps);
    assert(play(vials, qs) == after_pour(a, i2, j2));
    assert forall|m: int| 0 <= m < qs.len() implies pours_at(
        #[trigger] play(vials, qs.take(m)),
        qs[m].0,
        qs[m].1,
    ) by {
        if m < ps.len() {
            assert(qs.take(m) =~= ps.take(m));
            assert(pours_at(play(vials, ps.take(m)), ps[m].0, ps[m].1));
        } else {
            assert(qs.take(m) =~= ps);
        }
    }
}

/// A solver move between exactly annotated vials that pours nothing leaves
/// the state as it is (in canonical order) and keeps the block count.
proof fn lemma_move_without_pour<const N: usize>(s: Seq<AnnotatedVial<N>>, i: int, j: int)
    requires
        exact_state(s),
        move_at(s, i, j) is Some,
        0 <= i < s.len(),
        0 <= j < s.len(),
        !can_pour(s[i].vial@, s[j].vial@),
    ensures
        move_at(s, i, j) == Some((canonical(s), false)),
{
    broadcast use lemma_vial_len;

    reveal(move_at);
    let src = s[i];
    let dst = s[j];
    assert(exact(src));
    assert(exact(dst));
    lemma_settled(src.vial@);
    lemma_settled(dst.vial@);
    lemma_first_filled_from(src.vial@, 0);
    let f = first_filled(src.vial@);
    let sc = src.vial@[f];
    lemma_run_from_prefix(src.vial@, f, sc);
    lemma_run_from_nonneg(src.vial@, f + 1, sc);
    assert(first_filled(dst.vial@) == 0);
    assert(dst.vial@[0] != 0);
    assert(s.update(i, src).update(j, dst) =~= s);
}

/// Every state the solver reaches is in canonical order.
proof fn lemma_reached_canonical<const N: usize>(
    init: Seq<AnnotatedVial<N>>,
    mx: int,
    y: int,
    x: int,
    p: Seq<AnnotatedVial<N>>,
)
    requires
        init == canonical(init),
        reaches(init, mx, y, x, p),
    ensures
        p == canonical(p),
    decreases y, x,
{
    if !(y == 0 && x == 0 && p == init) {
        let lowers = !(y > 0 && x < mx && exists|s: Seq<AnnotatedVial<N>>|
            reaches(init, mx, y - 1, x, s) && #[trigger] is_move(s, p, false));
        let s = choose|s: Seq<AnnotatedVial<N>>| #[trigger] is_move(s, p, lowers);
        let (a, b) = choose|a: int, b: int| #[trigger] move_at(s, a, b) == Some((p, lowers));
        reveal(move_at);
        let u = choose|u: Seq<AnnotatedVial<N>>| p == canonical(u);
        lemma_canonical_twice(u);
    }
}

proof fn lemma_canonical_twice<const N: usize>(u: Seq<AnnotatedVial<N>>)
    ensures
        canonical(canonical(u)) == canonical(u),
{
    lemma_av_order::<N>();
    u.lemma_sort_by_ensures(av_order::<N>());
    canonical(u).lemma_sort_by_ensures(av_order::<N>());
    vstd::seq_lib::lemma_sorted_unique(canonical(u), canonical(canonical(u)), av_order::<N>());
}

/// `ps` plays the solver's way to `p`: it reaches `p` with `y` moves that
/// keep the block count and `x` that lower it, and `ps` is as many pours,
/// all of which succeed, that give the vials of `p` in some order.
pub open spec fn played_to<const N: usize>(
    vials: Seq<Vial<N>>,
    mx: int,
    y: int,
    x: int,
    p: Seq<AnnotatedVial<N>>,
    ps: Seq<(int, int)>,
) -> bool {
    &&& reaches(initial_state(vials), mx, y, x, p)
    &&& ps.len() == y + x
    &&& plays_out(vials, ps)
    &&& play(vials, ps).to_multiset() == vials_of(p).to_multiset()
}

/// A state the solver reaches from settled vials with `y + x` moves is
/// reached with at most as many moves that keep the block count, such that
/// as many pours as moves, all of which succeed, give its vials.
proof fn lemma_reached_played<const N: usize>(
    vials: Seq<Vial<N>>,
    mx: int,
    y: int,
    x: int,
    p: Seq<AnnotatedVial<N>>,
)
    requires
        forall|i: int| 0 <= i < vials.len() ==> settled(#[trigger] vials[i]@),
        reaches(initial_state(vials), mx, y, x, p),
    ensures
        exists|y2: int, ps: Seq<(int, int)>|
            0 <= y2 <= y && #[trigger] played_to(vials, mx, y2, x, p, ps),
    decreases y, x,
{
    let init = initial_state(vials);
    law_initial_state_exact(vials);
    if y == 0 && x == 0 && p == init {
        let u = vials.map_values(|v: Vial<N>| annotated(v));
        lemma_av_order::<N>();
        u.lemma_sort_by_ensures(av_order::<N>());
        lemma_map_values_multiset(u, canonical(u), |a: AnnotatedVial<N>| a.vial);
        assert(vials_of(u) =~= vials);
        let ps = Seq::<(int, int)>::empty();
        assert(play(vials, ps) == vials);
        assert(played_to(vials, mx, 0, 0, p, ps));
    } else {
        let lowers = !(y > 0 && x < mx && exists|s: Seq<AnnotatedVial<N>>|
            reaches(init, mx, y - 1, x, s) && #[trigger] is_move(s, p, false));
        let (yp, xp) = if lowers {
            (y, x - 1)
        } else {
            (y - 1, x)
        };
        let s = choose|s: Seq<AnnotatedVial<N>>|
            reaches(init, mx, yp, xp, s) && #[trigger] is_move(s, p, lowers);
        lemma_reached_played(vials, mx, yp, xp, s);
        let (y2, ps) = choose|y2: int, ps: Seq<(int, int)>|
            0 <= y2 <= yp && #[trigger] played_to(vials, mx, y2, xp, s, ps);
        let (a, b) = choose|a: int, b: int| #[trigger] move_at(s, a, b) == Some((p, lowers));
        law_reached_exact(init, mx, yp, xp, s);
        assert(0 <= a < s.len() && 0 <= b < s.len()) by {
            reveal(move_at);
        }
        if can_pour(s[a].vial@, s[b].vial@) {
            lemma_move_played(vials, ps, s, a, b);
            let q = choose|q: (int, int)|
                plays_out(vials, ps.push(q)) && #[trigger] play(vials, ps.push(q)).to_multiset()
                    == vials_of((move_at(s, a, b)->0).0).to_multiset();
            let y3 = if lowers {
                y2
            } else {
                y2 + 1
            };
            lemma_reaches_unfold(init, mx, y3, x, p);
            assert(reaches(init, mx, y3, x, p));
            assert(played_to(vials, mx, y3, x, p, ps.push(q)));
        } else {
            lemma_move_without_pour(s, a, b);
            lemma_canonical_twice(vials.map_values(|v: Vial<N>| annotated(v)));
            lemma_reached_canonical(init, mx, yp, xp, s);
            assert(p == s);
            assert(played_to(vials, mx, y2, x, p, ps));
        }
    }
}

/// A dealt arrangement is settled and holds `c * N` filled cells.
pub proof fn lemma_dealt_start<const N: usize>(vials: Seq<Vial<N>>, c: int)
    requires
        shuffled(vials, c),
        0 <= c <= 255,
        c <= vials.len(),
        N > 0,
    ensures
        forall|i: int| 0 <= i < vials.len() ==> settled(#[trigger] vials[i]@),
        filled_total(vials) == c * N,
{
    broadcast use lemma_vial_len;

    lemma_shuffled_filled(vials, c);
    assert forall|i: int| 0 <= i < vials.len() implies settled(#[trigger] vials[i]@) by {
        assert forall|a: int, b: int|
            0 <= a <= b < vials[i]@.len() && #[trigger] vials[i]@[a] != 0 implies #[trigger] vials[i]@[b]
            != 0 by {
            if i >= c {
                assert(vials[i]@[a] == 0);
            }
        }
    }
    assert forall|i: int| 0 <= i < c implies first_filled(#[trigger] vials[i]@) == 0 by {
        assert(vials[i]@[0] != 0);
    }
    assert forall|i: int| c <= i < vials.len() implies first_filled(#[trigger] vials[i]@) == N by {
        lemma_first_filled_from(vials[i]@, 0);
        if first_filled(vials[i]@) < N {
            assert(vials[i]@[first_filled(vials[i]@)] == 0);
        }
    }
    lemma_filled_total_dealt(vials, c);
}

/// Vials that hold, in some order, the vials of a state whose vials are all
/// uniform are all uniform.
proof fn lemma_uniform_rearranged<const N: usize>(played: Seq<Vial<N>>, p: Seq<AnnotatedVial<N>>)
    requires
        played.to_multiset() == vials_of(p).to_multiset(),
        forall|k: int| 0 <= k < p.len() ==> uniform(#[trigger] p[k].vial@),
    ensures
        all_uniform(played),
{
    assert forall|i: int| 0 <= i < played.len() implies uniform(#[trigger] played[i]@) by {
        assert(played.contains(played[i]));
        vstd::seq_lib::to_multiset_contains(played, played[i]);
        vstd::seq_lib::to_multiset_contains(vials_of(p), played[i]);
        let kk = choose|kk: int| 0 <= kk < vials_of(p).len() && vials_of(p)[kk] == played[i];
        assert(uniform(p[kk].vial@));
    }
}

/// Law: the least number of moves that the solver finds can be played. For
/// settled vials that hold `c * N` filled cells in all (as `c` colours of
/// `N` cells each do), an answer of `k` moves means some `k` pours, each of
/// which succeeds on the vials the pours before it leave, leave every vial
/// holding a single colour or nothing.
pub proof fn law_solution_can_be_played<const N: usize>(vials: Seq<Vial<N>>, c: int, k: int)
    requires
        forall|i: int| 0 <= i < vials.len() ==> settled(#[trigger] vials[i]@),
        filled_total(vials) == c * N,
        solution(vials, c) == Some(k),
    ensures
        exists|ps: Seq<(int, int)>|
            ps.len() == k && plays_out(vials, ps) && all_uniform(#[trigger] play(vials, ps)),
{
    broadcast use lemma_vial_len;

    let init = initial_state(vials);
    let mx = lowering_moves(vials, c);
    law_initial_state_exact(vials);
    lemma_shortest_reached(init, mx, k);
    let p = choose|p: Seq<AnnotatedVial<N>>| #[trigger] reaches(init, mx, k - mx, mx, p);
    lemma_reached_played(vials, mx, k - mx, mx, p);
    let (y2, ps) = choose|y2: int, ps: Seq<(int, int)>|
        0 <= y2 <= k - mx && #[trigger] played_to(vials, mx, y2, mx, p, ps);
    assert(solved_at(init, mx, y2));
    assert(y2 == k - mx);
    law_reached_exact(init, mx, y2, mx, p);
    lemma_total_filled_start(vials);
    if N > 0 {
        assert(c * N == N * c) by (nonlinear_arith);
        lemma_state_filled(p);
    } else {
        assert forall|kk: int| 0 <= kk < p.len() implies uniform(#[trigger] p[kk].vial@) by {
        }
    }
    lemma_uniform_rearranged(play(vials, ps), p);
}

/// Law: the least number of moves that the solver finds for settled vials
/// that hold the colours `1..=c`, each in exactly `N` cells, can be played:
/// some `k` pours, each of which succeeds, leave every vial holding a single
/// colour or nothing.
pub proof fn law_coloured_solution_can_be_played<const N: usize>(
    vials: Seq<Vial<N>>,
    c: int,
    k: int,
)
    requires
        forall|i: int| 0 <= i < vials.len() ==> settled(#[trigger] vials[i]@),
        0 <= c <= 255,
        colours_fill(vials, c),
        solution(vials, c) == Some(k),
    ensures
        exists|ps: Seq<(int, int)>|
            ps.len() == k && plays_out(vials, ps) && all_uniform(#[trigger] play(vials, ps)),
{
    lemma_colours_fill_cells(vials, c);
    law_solution_can_be_played(vials, c, k);
}

proof fn lemma_cells_of_concat(a: Seq<u8>, b: Seq<u8>, x: u8)
    ensures
        cells_of(a + b, x) == cells_of(a, x) + cells_of(b, x),
    decreases b.len(),
{
    if b.len() == 0 {
        assert(a + b =~= a);
    } else {
        lemma_cells_of_concat(a, b.drop_last(), x);
        assert((a + b).drop_last() =~= a + b.drop_last());
        assert((a + b).last() == b.last());
    }
}

proof fn lemma_cells_of_same(n: int, y: u8, x: u8)
    requires
        n >= 0,
    ensures
        cells_of(Seq::new(n as nat, |i: int| y), x) == if x == y {
            n
        } else {
            0
        },
    decreases n,
{
    if n > 0 {
        lemma_cells_of_same(n - 1, y, x);
        assert(Seq::new(n as nat, |i: int| y).drop_last() =~= Seq::new((n - 1) as nat, |i: int| y));
    }
}

/// Law: the colour buffer a puzzle is dealt from holds each colour `1..=c`
/// (with `c <= 255`) in exactly `n` cells, and nothing else.
pub proof fn law_colour_buffer_counts(c: int, n: int)
    requires
        0 <= c <= 255,
        n >= 0,
    ensures
        colour_buffer(c, n).len() == c * n,
        forall|x: u8| #[trigger] cells_of(colour_buffer(c, n), x) == if 1 <= x <= c {
            n
        } else {
            0
        },
    decreases c,
{
    assert(c * n >= 0) by (nonlinear_arith)
        requires
            c >= 0,
            n >= 0,
    ;
    if c == 0 {
        assert(c * n == 0) by (nonlinear_arith)
            requires
                c == 0,
        ;
        assert forall|x: u8| #[trigger] cells_of(colour_buffer(c, n), x) == 0 by {
        }
    } else {
        law_colour_buffer_counts(c - 1, n);
        let prev = colour_buffer(c - 1, n);
        let top = Seq::new(n as nat, |i: int| c as u8);
        assert((c - 1) * n + n == c * n) by (nonlinear_arith);
        assert((c - 1) * n >= 0) by (nonlinear_arith)
            requires
                c >= 1,
                n >= 0,
        ;
        assert forall|i: int| 0 <= i < c * n implies #[trigger] colour_buffer(c, n)[i] == (prev
            + top)[i] by {
            if i >= (c - 1) * n {
                let j = i - (c - 1) * n;
                assert(n > 0 && 0 <= j < n);
                assert(i / n == c - 1) by (nonlinear_arith)
                    requires
                        i == (c - 1) * n + j,
                        0 <= j < n,
                        n > 0,
                ;
            }
        }
        assert(colour_buffer(c, n) =~= prev + top);
        assert forall|x: u8| #[trigger] cells_of(colour_buffer(c, n), x) == if 1 <= x <= c {
            n
        } else {
            0
        } by {
            lemma_cells_of_concat(prev, top, x);
            lemma_cells_of_same(n, c as u8, x);
        }
    }
}

} // verus!
