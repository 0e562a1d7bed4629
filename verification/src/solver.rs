use vstd::prelude::*;

use crate::puzzle::{
    Vial, first_filled, lemma_first_filled_from, lemma_vial_len, pour, pour_vials, run_from,
};
use self::order::{canonical, insert_state, sort_state, sorted_states};

pub mod laws;
pub mod order;

verus! {

/// A vial together with the number of colour blocks in it and the colour on
/// top, as the solver tracks them.
#[derive(Debug, PartialEq, Eq, Clone, Copy, Hash, PartialOrd, Ord)]
pub struct AnnotatedVial<const N: usize> {
    pub vial: Vial<N>,
    pub blocks: usize,
    pub lead_colour: Option<u8>,
}

impl<const N: usize> AnnotatedVial<N> {
    pub fn new(vial: Vial<N>, blocks: usize, lead_colour: Option<u8>) -> (a: Self)
        ensures
            a.vial == vial,
            a.blocks == blocks,
            a.lead_colour == lead_colour,
    {
        Self { vial, blocks, lead_colour }
    }
}

/// Number of cells `k` with `lo < k < hi` whose colour differs from the cell above.
pub open spec fn changes_between(s: Seq<u8>, lo: int, hi: int) -> int
    decreases hi - lo,
{
    if hi <= lo + 1 {
        0
    } else {
        changes_between(s, lo, hi - 1) + if s[hi - 1] != s[hi - 2] {
            1int
        } else {
            0int
        }
    }
}

/// Number of blocks in a vial: runs of equal cells from the topmost filled
/// cell down, where a change of colour (empty cells included) starts a new run.
pub open spec fn block_count(s: Seq<u8>) -> int {
    let f = first_filled(s);
    if f < s.len() {
        1 + changes_between(s, f, s.len() as int)
    } else {
        0
    }
}

/// The colour of the topmost filled cell, if any.
pub open spec fn top_colour(s: Seq<u8>) -> Option<u8> {
    let f = first_filled(s);
    if f < s.len() {
        Some(s[f])
    } else {
        None
    }
}

/// A vial with its block count and top colour.
pub open spec fn annotated<const N: usize>(v: Vial<N>) -> AnnotatedVial<N> {
    AnnotatedVial { vial: v, blocks: block_count(v@) as usize, lead_colour: top_colour(v@) }
}

pub proof fn lemma_changes_between(s: Seq<u8>, lo: int, hi: int)
    requires
        lo < hi,
    ensures
        0 <= changes_between(s, lo, hi) <= hi - lo - 1,
    decreases hi - lo,
{
    if hi > lo + 1 {
        lemma_changes_between(s, lo, hi - 1);
    }
}

/// A vial's block count is at most its height.
pub proof fn lemma_block_count<const N: usize>(v: Vial<N>)
    ensures
        0 <= block_count(v@) <= N,
        first_filled(v@) < N ==> block_count(v@) >= 1,
{
    broadcast use lemma_vial_len;

    lemma_first_filled_from(v@, 0);
    if first_filled(v@) < N {
        lemma_changes_between(v@, first_filled(v@), N as int);
    }
}

/// The colour of the topmost filled cell of `v`, if any.
pub fn top_colour_of<const N: usize>(v: &Vial<N>) -> (c: Option<u8>)
    ensures
        c == top_colour(v@),
{
    broadcast use lemma_vial_len;

    let f = v.first_filled_index();
    if f < N {
        Some(v.get(f))
    } else {
        None
    }
}

/// Counts the blocks of `v` and finds its top colour.
pub fn annotate<const N: usize>(v: Vial<N>) -> (a: AnnotatedVial<N>)
    ensures
        a == annotated(v),
        a.blocks <= N,
{
    broadcast use lemma_vial_len;

    proof {
        lemma_block_count(v);
    }
    let start = v.first_filled_index();
    if start == N {
        return AnnotatedVial::new(v, 0, None);
    }
    let mut blocks: usize = 1;
    let lead_colour = v.get(start);
    let mut c = lead_colour;
    let mut i = start;
    while i < N
        invariant
            start <= i <= N,
            start < N,
            blocks == 1 + changes_between(v@, start as int, i as int),
            i == start ==> c == v@[start as int],
            i > start ==> c == v@[i - 1],
            v@.len() == N,
            i > start ==> changes_between(v@, start as int, i as int) <= i - start - 1,
        decreases N - i,
    {
        proof {
            lemma_changes_between(v@, start as int, i + 1);
        }
        let new_c = v.get(i);
        if c != new_c {
            blocks += 1;
            c = new_c;
        }
        i += 1;
    }
    AnnotatedVial::new(v, blocks, Some(lead_colour))
}

/// `b - 1`, wrapping below zero.
pub open spec fn blocks_dec(b: usize) -> usize {
    vstd::wrapping::usize_specs::wrapping_sub(b, 1)
}

/// `b + 1`, wrapping above `usize::MAX`.
pub open spec fn blocks_inc(b: usize) -> usize {
    vstd::wrapping::usize_specs::wrapping_add(b, 1)
}

/// The move that pours vial `i` of state `s` into vial `j`, with the state
/// it leads to (in canonical order) and whether it lowers the total block
/// count, or `None` when the solver does not make that move: `i == j`, an
/// empty source, a source of a single block into an empty vial, or a part
/// of the top block onto another colour.
#[verifier::opaque]
pub open spec fn move_at<const N: usize>(s: Seq<AnnotatedVial<N>>, i: int, j: int) -> Option<
    (Seq<AnnotatedVial<N>>, bool),
> {
    if 0 <= i < s.len() && 0 <= j < s.len() && i != j {
        let src = s[i];
        let dst = s[j];
        let poured = pour_vials(src.vial, dst.vial);
        let v1 = poured.0;
        let v2 = poured.1;
        match src.lead_colour {
            None => None,
            Some(sc) => {
                let emptied = AnnotatedVial {
                    vial: v1,
                    blocks: blocks_dec(src.blocks),
                    lead_colour: top_colour(v1@),
                };
                let covered = AnnotatedVial {
                    vial: v2,
                    blocks: blocks_inc(dst.blocks),
                    lead_colour: Some(sc),
                };
                let merged = AnnotatedVial {
                    vial: v2,
                    blocks: dst.blocks,
                    lead_colour: dst.lead_colour,
                };
                match dst.lead_colour {
                    None => if src.blocks == 1 {
                        None
                    } else {
                        Some((canonical(s.update(i, emptied).update(j, covered)), false))
                    },
                    Some(dc) => if run_from(src.vial@, first_filled(src.vial@), sc) <= first_filled(
                        dst.vial@,
                    ) {
                        if dc == sc {
                            Some((canonical(s.update(i, emptied).update(j, merged)), true))
                        } else {
                            Some((canonical(s.update(i, emptied).update(j, covered)), false))
                        }
                    } else if dc == sc {
                        let kept = AnnotatedVial {
                            vial: v1,
                            blocks: src.blocks,
                            lead_colour: src.lead_colour,
                        };
                        Some((canonical(s.update(i, kept).update(j, merged)), false))
                    } else {
                        None
                    },
                }
            },
        }
    } else {
        None
    }
}

/// The solver moves from `s` to `p`, lowering the block count when `lowers`.
pub open spec fn is_move<const N: usize>(
    s: Seq<AnnotatedVial<N>>,
    p: Seq<AnnotatedVial<N>>,
    lowers: bool,
) -> bool {
    exists|i: int, j: int| #[trigger] move_at(s, i, j) == Some((p, lowers))
}

/// Computes `move_at(state, i, j)`.
fn move_at_exec<const N: usize, const T: usize>(
    state: &[AnnotatedVial<N>; T],
    i: usize,
    j: usize,
) -> (r: Option<([AnnotatedVial<N>; T], bool)>)
    requires
        i < T,
        j < T,
    ensures
        match r {
            Some((p, lowers)) => move_at(state@, i as int, j as int) == Some((p@, lowers)),
            None => move_at(state@, i as int, j as int) is None,
        },
{
    broadcast use vstd::array::group_array_axioms;

    reveal(move_at);
    if i == j {
        return None;
    }
    let src = state[i];
    let dst = state[j];
    let sc = match src.lead_colour {
        None => return None,
        Some(c) => c,
    };
    let mut v1 = src.vial;
    let mut v2 = dst.vial;
    let mut item = *state;
    match dst.lead_colour {
        None => {
            if src.blocks == 1 {
                return None;
            }
            pour(&mut v1, &mut v2);
            item[i] = AnnotatedVial::new(v1, src.blocks.wrapping_sub(1), top_colour_of(&v1));
            item[j] = AnnotatedVial::new(v2, dst.blocks.wrapping_add(1), Some(sc));
            sort_state(&mut item);
            Some((item, false))
        },
        Some(dc) => {
            let block_size = src.vial.run_length(src.vial.first_filled_index(), sc);
            let dst_empty_size = dst.vial.first_filled_index();
            if block_size <= dst_empty_size {
                pour(&mut v1, &mut v2);
                item[i] = AnnotatedVial::new(v1, src.blocks.wrapping_sub(1), top_colour_of(&v1));
                if dc == sc {
                    item[j] = AnnotatedVial::new(v2, dst.blocks, dst.lead_colour);
                    sort_state(&mut item);
                    Some((item, true))
                } else {
                    item[j] = AnnotatedVial::new(v2, dst.blocks.wrapping_add(1), Some(sc));
                    sort_state(&mut item);
                    Some((item, false))
                }
            } else if dc == sc {
                pour(&mut v1, &mut v2);
                item[i] = AnnotatedVial::new(v1, src.blocks, src.lead_colour);
                item[j] = AnnotatedVial::new(v2, dst.blocks, dst.lead_colour);
                sort_state(&mut item);
                Some((item, false))
            } else {
                None
            }
        },
    }
}

/// The moves from vial `i` of `s` into vials `0..j`, in that order.
pub open spec fn row_moves<const N: usize>(s: Seq<AnnotatedVial<N>>, i: int, j: int) -> Seq<
    (Seq<AnnotatedVial<N>>, bool),
>
    decreases j,
{
    if j <= 0 {
        Seq::empty()
    } else {
        match move_at(s, i, j - 1) {
            Some(m) => row_moves(s, i, j - 1).push(m),
            None => row_moves(s, i, j - 1),
        }
    }
}

/// The moves from vials `0..i` of `s`: source by source, each into every
/// vial in order.
pub open spec fn moves_from<const N: usize>(s: Seq<AnnotatedVial<N>>, i: int) -> Seq<
    (Seq<AnnotatedVial<N>>, bool),
>
    decreases i,
{
    if i <= 0 {
        Seq::empty()
    } else {
        moves_from(s, i - 1) + row_moves(s, i - 1, s.len() as int)
    }
}

/// The moves listed in `r`, each state taken by its view.
pub open spec fn move_views<const N: usize, const T: usize>(
    r: Seq<([AnnotatedVial<N>; T], bool)>,
) -> Seq<(Seq<AnnotatedVial<N>>, bool)> {
    r.map_values(|m: ([AnnotatedVial<N>; T], bool)| (m.0@, m.1))
}

/// `m` is among the moves listed in `r`.
pub open spec fn listed<const N: usize, const T: usize>(
    r: Seq<([AnnotatedVial<N>; T], bool)>,
    m: (Seq<AnnotatedVial<N>>, bool),
) -> bool {
    exists|k: int| 0 <= k < r.len() && #[trigger] r[k].0@ == m.0 && r[k].1 == m.1
}

/// All moves the solver makes from `state`: each state it leads to, with
/// whether the move lowers the block count.
pub fn moves<const N: usize, const T: usize>(state: &[AnnotatedVial<N>; T]) -> (r: Vec<
    ([AnnotatedVial<N>; T], bool),
>)
    ensures
        move_views(r@) == moves_from(state@, T as int),
        forall|k: int| 0 <= k < r.len() ==> is_move(state@, #[trigger] r@[k].0@, r@[k].1),
        forall|p: Seq<AnnotatedVial<N>>, lowers: bool|
            is_move(state@, p, lowers) ==> listed(r@, (p, lowers)),
        laws::exact_state(state@) ==> forall|k: int|
            0 <= k < r.len() ==> laws::by_some_pour(state@, #[trigger] r@[k].0@),
        laws::exact_state(state@) ==> forall|i: int, j: int|
            #[trigger] laws::admissible(state@, i, j) ==> exists|k: int|
                0 <= k < r.len() && #[trigger] laws::pours_to(state@, i, j, r@[k].0@),
{
    broadcast use vstd::array::group_array_axioms;

    let r = moves_listed(state);
    proof {
        if laws::exact_state(state@) {
            assert forall|k: int| 0 <= k < r.len() implies laws::by_some_pour(
                state@,
                #[trigger] r@[k].0@,
            ) by {
                assert(is_move(state@, r@[k].0@, r@[k].1));
                let (i, j) = choose|i: int, j: int| #[trigger]
                    move_at(state@, i, j) == Some((r@[k].0@, r@[k].1));
                assert(0 <= i < T && 0 <= j < T) by {
                    reveal(move_at);
                }
                laws::law_move_is_annotated_pour(state@, i, j);
                assert(laws::pours_to(state@, i, j, r@[k].0@));
            }
            assert forall|i: int, j: int| #[trigger] laws::admissible(state@, i, j) implies exists|
                k: int,
            | 0 <= k < r.len() && #[trigger] laws::pours_to(state@, i, j, r@[k].0@) by {
                laws::law_move_is_annotated_pour(state@, i, j);
                let m = move_at(state@, i, j)->0;
                assert(is_move(state@, m.0, m.1));
                assert(listed(r@, (m.0, m.1)));
                let k = choose|k: int| 0 <= k < r@.len() && #[trigger] r@[k].0@ == m.0 && r@[k].1 == m.1;
                assert(laws::pours_to(state@, i, j, r@[k].0@));
            }
        }
    }
    r
}

/// All moves the solver makes from `state`, as `moves` lists them.
fn moves_listed<const N: usize, const T: usize>(state: &[AnnotatedVial<N>; T]) -> (r: Vec<
    ([AnnotatedVial<N>; T], bool),
>)
    ensures
        move_views(r@) == moves_from(state@, T as int),
        forall|k: int| 0 <= k < r.len() ==> is_move(state@, #[trigger] r@[k].0@, r@[k].1),
        forall|p: Seq<AnnotatedVial<N>>, lowers: bool|
            is_move(state@, p, lowers) ==> listed(r@, (p, lowers)),
{
    broadcast use vstd::array::group_array_axioms;

    let mut r: Vec<([AnnotatedVial<N>; T], bool)> = Vec::new();
    let mut i: usize = 0;
    while i < T
        invariant
            i <= T,
            state@.len() == T,
            move_views(r@) == moves_from(state@, i as int),
            forall|k: int| 0 <= k < r.len() ==> is_move(state@, #[trigger] r@[k].0@, r@[k].1),
            forall|a: int, b: int|
                0 <= a < i && 0 <= b < T && #[trigger] move_at(state@, a, b) is Some ==> listed(
                    r@,
                    move_at(state@, a, b)->0,
                ),
        decreases T - i,
    {
        let mut j: usize = 0;
        while j < T
            invariant
                i < T,
                j <= T,
                state@.len() == T,
                move_views(r@) == moves_from(state@, i as int) + row_moves(state@, i as int, j as int),
                forall|k: int| 0 <= k < r.len() ==> is_move(state@, #[trigger] r@[k].0@, r@[k].1),
                forall|a: int, b: int|
                    ((0 <= a < i && 0 <= b < T) || (a == i && 0 <= b < j)) && #[trigger] move_at(
                        state@,
                        a,
                        b,
                    ) is Some ==> listed(r@, move_at(state@, a, b)->0),
            decreases T - j,
        {
            match move_at_exec(state, i, j) {
                Some((p, lowers)) => {
                    let ghost old_r = r@;
                    r.push((p, lowers));
                    proof {
                        assert(move_views(r@) =~= move_views(old_r).push((p@, lowers)));
                        assert(r@[old_r.len() as int] == (p, lowers));
                        assert forall|k: int| 0 <= k < r.len() implies is_move(
                            state@,
                            #[trigger] r@[k].0@,
                            r@[k].1,
                        ) by {
                            if k == old_r.len() {
                                assert(move_at(state@, i as int, j as int) == Some((p@, lowers)));
                            } else {
                                assert(r@[k] == old_r[k]);
                            }
                        }
                        assert forall|a: int, b: int|
                            ((0 <= a < i && 0 <= b < T) || (a == i && 0 <= b < j + 1))
                                && #[trigger] move_at(state@, a, b) is Some implies listed(
                            r@,
                            move_at(state@, a, b)->0,
                        ) by {
                            let m = move_at(state@, a, b)->0;
                            if a == i && b == j {
                                assert(r@[old_r.len() as int].0@ == m.0);
                            } else {
                                let k = choose|k: int|
                                    0 <= k < old_r.len() && #[trigger] old_r[k].0@ == m.0
                                        && old_r[k].1 == m.1;
                                assert(r@[k] == old_r[k]);
                            }
                        }
                    }
                },
                None => {},
            }
            assert(move_views(r@) =~= moves_from(state@, i as int) + row_moves(
                state@,
                i as int,
                j + 1,
            ));
            j += 1;
        }
        i += 1;
    }
    proof {
        assert forall|p: Seq<AnnotatedVial<N>>, lowers: bool| is_move(state@, p, lowers) implies listed(
            r@,
            (p, lowers),
        ) by {
            let (a, b) = choose|a: int, b: int| #[trigger] move_at(state@, a, b) == Some((p, lowers));
            assert(move_at(state@, a, b) is Some);
            reveal(move_at);
        }
    }
    r
}

/// `p` is reached from `init` by `y` moves that keep the block count and
/// `x` moves that lower it, where the solver moves on only from states
/// reached with fewer than `mx` lowering moves.
pub open spec fn reaches<const N: usize>(
    init: Seq<AnnotatedVial<N>>,
    mx: int,
    y: int,
    x: int,
    p: Seq<AnnotatedVial<N>>,
) -> bool
    decreases y, x,
{
    if y < 0 || x < 0 || x > mx {
        false
    } else {
        ||| y == 0 && x == 0 && p == init
        ||| y > 0 && x < mx && exists|s: Seq<AnnotatedVial<N>>|
            reaches(init, mx, y - 1, x, s) && #[trigger] is_move(s, p, false)
        ||| x > 0 && exists|s: Seq<AnnotatedVial<N>>|
            reaches(init, mx, y, x - 1, s) && #[trigger] is_move(s, p, true)
    }
}

/// The part of `reaches` that does not come from a lowering move within
/// the same `y`: the start, or a move that keeps the block count.
pub open spec fn reaches_by_keeping<const N: usize>(
    init: Seq<AnnotatedVial<N>>,
    mx: int,
    y: int,
    x: int,
    p: Seq<AnnotatedVial<N>>,
) -> bool {
    &&& 0 <= y
    &&& 0 <= x <= mx
    &&& {
        ||| y == 0 && x == 0 && p == init
        ||| y > 0 && x < mx && exists|s: Seq<AnnotatedVial<N>>|
            reaches(init, mx, y - 1, x, s) && #[trigger] is_move(s, p, false)
    }
}

/// Some state is reached with `y` moves that keep the block count and `mx`
/// that lower it.
pub open spec fn solved_at<const N: usize>(init: Seq<AnnotatedVial<N>>, mx: int, y: int) -> bool {
    exists|p: Seq<AnnotatedVial<N>>| #[trigger] reaches(init, mx, y, mx, p)
}

/// `p` is reached with `x` lowering moves and fewer than `y` moves that keep
/// the block count.
pub open spec fn reached_before<const N: usize>(
    init: Seq<AnnotatedVial<N>>,
    mx: int,
    y: int,
    x: int,
    p: Seq<AnnotatedVial<N>>,
) -> bool {
    exists|z: int| 0 <= z < y && #[trigger] reaches(init, mx, z, x, p)
}

proof fn lemma_reached_before_next<const N: usize>(
    init: Seq<AnnotatedVial<N>>,
    mx: int,
    y: int,
    x: int,
    p: Seq<AnnotatedVial<N>>,
)
    requires
        0 <= y,
    ensures
        reached_before(init, mx, y + 1, x, p) <==> reached_before(init, mx, y, x, p) || reaches(
            init,
            mx,
            y,
            x,
            p,
        ),
{
    if reached_before(init, mx, y + 1, x, p) && !reaches(init, mx, y, x, p) {
        let z = choose|z: int| 0 <= z < y + 1 && #[trigger] reaches(init, mx, z, x, p);
        assert(z < y);
    }
}

/// When every state reached with `y` moves that keep the block count was
/// reached with fewer, so is every state reached with more.
proof fn lemma_nothing_new<const N: usize>(
    init: Seq<AnnotatedVial<N>>,
    mx: int,
    y: int,
    z: int,
    x: int,
    p: Seq<AnnotatedVial<N>>,
)
    requires
        0 <= y <= z,
        forall|x2: int, q: Seq<AnnotatedVial<N>>|
            #[trigger] reaches(init, mx, y, x2, q) ==> reached_before(init, mx, y, x2, q),
        reaches(init, mx, z, x, p),
    ensures
        reached_before(init, mx, y, x, p),
    decreases z, x,
{
    if z > y {
        if x < mx && exists|s: Seq<AnnotatedVial<N>>|
            reaches(init, mx, z - 1, x, s) && #[trigger] is_move(s, p, false) {
            let s = choose|s: Seq<AnnotatedVial<N>>|
                reaches(init, mx, z - 1, x, s) && #[trigger] is_move(s, p, false);
            lemma_nothing_new(init, mx, y, z - 1, x, s);
            let z2 = choose|z2: int| 0 <= z2 < y && #[trigger] reaches(init, mx, z2, x, s);
            assert(reaches(init, mx, z2 + 1, x, p));
            if z2 + 1 == y {
                assert(reached_before(init, mx, y, x, p));
            }
        } else {
            let s = choose|s: Seq<AnnotatedVial<N>>|
                reaches(init, mx, z, x - 1, s) && #[trigger] is_move(s, p, true);
            lemma_nothing_new(init, mx, y, z, x - 1, s);
            let z2 = choose|z2: int| 0 <= z2 < y && #[trigger] reaches(init, mx, z2, x - 1, s);
            assert(reaches(init, mx, z2, x, p));
        }
    }
}

/// The least number of moves to a state reached with `mx` lowering moves,
/// or `None` when there is none within `usize::MAX` moves.
pub open spec fn shortest_solution<const N: usize>(init: Seq<AnnotatedVial<N>>, mx: int) -> Option<
    int,
> {
    if exists|y: int| 0 <= y && y + mx <= usize::MAX && #[trigger] solved_at(init, mx, y) {
        Some(
            mx + choose|y: int|
                0 <= y && #[trigger] solved_at(init, mx, y) && forall|z: int|
                    0 <= z < y ==> !solved_at(init, mx, z),
        )
    } else {
        None
    }
}

/// Sum of the block counts of a state.
pub open spec fn total_blocks<const N: usize>(s: Seq<AnnotatedVial<N>>) -> int
    decreases s.len(),
{
    if s.len() == 0 {
        0
    } else {
        total_blocks(s.drop_last()) + s.last().blocks
    }
}

/// The state the solver starts from: the vials annotated, in canonical order.
pub open spec fn initial_state<const N: usize>(vials: Seq<Vial<N>>) -> Seq<AnnotatedVial<N>> {
    canonical(vials.map_values(|v: Vial<N>| annotated(v)))
}

/// Number of lowering moves that take the initial state to one with one
/// block per colour.
pub open spec fn lowering_moves<const N: usize>(vials: Seq<Vial<N>>, c: int) -> int {
    total_blocks(initial_state(vials)) - c
}

/// What `solve` returns for `vials` with `c` colours.
pub open spec fn solution<const N: usize>(vials: Seq<Vial<N>>, c: int) -> Option<int> {
    shortest_solution(initial_state(vials), lowering_moves(vials, c))
}

/// The state `p` is among those in `v`.
pub open spec fn holds<const N: usize, const T: usize>(
    v: Seq<[AnnotatedVial<N>; T]>,
    p: Seq<AnnotatedVial<N>>,
) -> bool {
    exists|k: int| 0 <= k < v.len() && #[trigger] v[k]@ == p
}

pub(crate) proof fn lemma_reaches_unfold<const N: usize>(
    init: Seq<AnnotatedVial<N>>,
    mx: int,
    y: int,
    x: int,
    p: Seq<AnnotatedVial<N>>,
)
    ensures
        reaches(init, mx, y, x, p) <==> reaches_by_keeping(init, mx, y, x, p) || (0 <= y && 0 < x
            <= mx && exists|s: Seq<AnnotatedVial<N>>|
            reaches(init, mx, y, x - 1, s) && #[trigger] is_move(s, p, true)),
{
}

/// Once no state is reached at some `y`, none is reached at any larger `y`.
proof fn lemma_reaches_stops<const N: usize>(
    init: Seq<AnnotatedVial<N>>,
    mx: int,
    y: int,
    y2: int,
    x: int,
    p: Seq<AnnotatedVial<N>>,
)
    requires
        0 <= y <= y2,
        forall|x2: int, q: Seq<AnnotatedVial<N>>| !#[trigger] reaches_by_keeping(init, mx, y, x2, q),
    ensures
        !reaches(init, mx, y2, x, p),
    decreases y2, x,
{
    if x < 0 || x > mx {
    } else {
        if y2 == y {
            assert(!reaches_by_keeping(init, mx, y, x, p));
        } else {
            assert forall|s: Seq<AnnotatedVial<N>>| !#[trigger] reaches(init, mx, y2 - 1, x, s) by {
                lemma_reaches_stops(init, mx, y, y2 - 1, x, s);
            }
            assert(y2 > 0);
        }
        if x > 0 {
            assert forall|s: Seq<AnnotatedVial<N>>| !#[trigger] reaches(init, mx, y2, x - 1, s) by {
                lemma_reaches_stops(init, mx, y, y2, x - 1, s);
            }
        }
        lemma_reaches_unfold(init, mx, y2, x, p);
    }
}

/// Annotates every vial of a state.
pub fn annotate_all<const N: usize, const T: usize>(state: [Vial<N>; T]) -> (r: [AnnotatedVial<N>; T])
    ensures
        r@ == state@.map_values(|v: Vial<N>| annotated(v)),
        forall|i: int| 0 <= i < T ==> #[trigger] r@[i].blocks <= N,
{
    broadcast use vstd::array::group_array_axioms;

    let mut r = [AnnotatedVial::new(Vial::new([0u8; N]), 0, None);T];
    let mut i: usize = 0;
    while i < T
        invariant
            i <= T,
            r@.len() == T,
            forall|j: int| 0 <= j < i ==> #[trigger] r@[j] == annotated(state@[j]),
            forall|j: int| 0 <= j < i ==> #[trigger] r@[j].blocks <= N,
        decreases T - i,
    {
        r[i] = annotate(state[i]);
        i += 1;
    }
    assert(r@ =~= state@.map_values(|v: Vial<N>| annotated(v)));
    r
}

/// Some state among the first `k` of `col` moves to `q`.
pub open spec fn moved_from<const N: usize, const T: usize>(
    col: Seq<[AnnotatedVial<N>; T]>,
    k: int,
    q: Seq<AnnotatedVial<N>>,
    lowers: bool,
) -> bool {
    exists|k2: int| 0 <= k2 < k && #[trigger] is_move(col[k2]@, q, lowers)
}

/// Among the first `m` moves of `ms` there is one to `q`.
pub open spec fn listed_before<const N: usize, const T: usize>(
    ms: Seq<([AnnotatedVial<N>; T], bool)>,
    m: int,
    q: Seq<AnnotatedVial<N>>,
    lowers: bool,
) -> bool {
    exists|m2: int| 0 <= m2 < m && #[trigger] ms[m2].0@ == q && ms[m2].1 == lowers
}

proof fn lemma_moved_from_column<const N: usize, const T: usize>(
    init: Seq<AnnotatedVial<N>>,
    mx: int,
    y: int,
    x: int,
    col: Seq<[AnnotatedVial<N>; T]>,
)
    requires
        forall|s: Seq<AnnotatedVial<N>>| holds(col, s) <==> reaches(init, mx, y, x, s),
    ensures
        forall|q: Seq<AnnotatedVial<N>>, lowers: bool|
            moved_from(col, col.len() as int, q, lowers) <==> exists|s: Seq<AnnotatedVial<N>>|
                reaches(init, mx, y, x, s) && #[trigger] is_move(s, q, lowers),
{
    assert forall|q: Seq<AnnotatedVial<N>>, lowers: bool|
        moved_from(col, col.len() as int, q, lowers) implies exists|s: Seq<AnnotatedVial<N>>|
            reaches(init, mx, y, x, s) && #[trigger] is_move(s, q, lowers) by {
        let k2 = choose|k2: int| 0 <= k2 < col.len() && #[trigger] is_move(col[k2]@, q, lowers);
        assert(holds(col, col[k2]@));
    }
    assert forall|q: Seq<AnnotatedVial<N>>, lowers: bool|
        (exists|s: Seq<AnnotatedVial<N>>|
            reaches(init, mx, y, x, s) && #[trigger] is_move(s, q, lowers)) implies moved_from(
        col,
        col.len() as int,
        q,
        lowers,
    ) by {
        let s = choose|s: Seq<AnnotatedVial<N>>|
            reaches(init, mx, y, x, s) && #[trigger] is_move(s, q, lowers);
        assert(holds(col, s));
        let k2 = choose|k2: int| 0 <= k2 < col.len() && #[trigger] col[k2]@ == s;
        assert(is_move(col[k2]@, q, lowers));
    }
}

/// Finds the least number of moves that solves `init` (a state of `T` vials
/// of height `N` holding `C` colours), as the least `y` such that a state is
/// reached with `y` moves that keep the block count and as many lowering
/// moves as it takes to get down to `C` blocks; `None` when no such state
/// is reached (within `usize::MAX` moves). The search stops with `None` as
/// soon as a round finds no new state, or every state of a round was
/// already reached with fewer moves that keep the block count.
pub fn solve<const N: usize, const T: usize, const C: usize>(init: [Vial<N>; T]) -> (steps: Option<
    usize,
>)
    requires
        T * N < usize::MAX,
        lowering_moves(init@, C as int) >= 0,
    ensures
        match steps {
            Some(k) => solution(init@, C as int) == Some(k as int),
            None => solution(init@, C as int) is None,
        },
{
    broadcast use vstd::array::group_array_axioms;

    let mut state = annotate_all(init);
    let ghost annotated_init = state@;
    sort_state(&mut state);
    let ghost init_s = state@;
    proof {
        order::lemma_av_order::<N>();
        annotated_init.lemma_sort_by_ensures(order::av_order::<N>());
        assert forall|i: int| 0 <= i < T implies #[trigger] init_s[i].blocks <= N by {
            assert(init_s.contains(init_s[i]));
            let j = choose|j: int| 0 <= j < T && annotated_init[j] == init_s[i];
        }
    }
    let mut b: usize = 0;
    let mut i: usize = 0;
    while i < T
        invariant
            i <= T,
            state@ == init_s,
            init_s.len() == T,
            forall|j: int| 0 <= j < T ==> #[trigger] init_s[j].blocks <= N,
            b == total_blocks(init_s.take(i as int)),
            b <= i * N,
            T * N < usize::MAX,
        decreases T - i,
    {
        assert(init_s.take(i + 1).drop_last() =~= init_s.take(i as int));
        assert(b + state[i as int].blocks <= (i + 1) * N) by (nonlinear_arith)
            requires
                b <= i * N,
                state[i as int].blocks <= N,
        ;
        assert((i + 1) * N <= T * N) by (nonlinear_arith)
            requires
                i + 1 <= T,
        ;
        b = b + state[i].blocks;
        i += 1;
    }
    assert(init_s.take(T as int) =~= init_s);
    let max_x = b - C;
    let ghost mx = max_x as int;
    assert(init_s == initial_state(init@));
    assert(mx == lowering_moves(init@, C as int));
    let mut cur: Vec<Vec<[AnnotatedVial<N>; T]>> = Vec::new();
    let mut first: Vec<[AnnotatedVial<N>; T]> = Vec::new();
    first.push(state);
    cur.push(first);
    while cur.len() <= max_x
        invariant
            1 <= cur@.len() <= max_x + 1,
            max_x < usize::MAX,
            cur@[0]@.len() == 1,
            cur@[0]@[0]@ == init_s,
            forall|x2: int| 1 <= x2 < cur@.len() ==> #[trigger] cur@[x2]@.len() == 0,
        decreases max_x + 1 - cur@.len(),
    {
        cur.push(Vec::new());
    }
    proof {
        assert forall|x2: int| 0 <= x2 <= mx implies #[trigger] sorted_states(cur@[x2]@) by {
        }
        assert forall|x2: int, q: Seq<AnnotatedVial<N>>| 0 <= x2 <= mx implies (holds(
            cur@[x2]@,
            q,
        ) <==> reaches_by_keeping(init_s, mx, 0, x2, q)) by {
            if x2 == 0 && q == init_s {
                assert(cur@[0]@[0]@ == q);
            }
            if holds(cur@[x2]@, q) {
                let kk = choose|kk: int| 0 <= kk < cur@[x2]@.len() && #[trigger] cur@[x2]@[kk]@ == q;
            }
        }
    }
    let mut seen: Vec<Vec<[AnnotatedVial<N>; T]>> = Vec::new();
    while seen.len() <= max_x
        invariant
            seen@.len() <= max_x + 1,
            max_x < usize::MAX,
            forall|x2: int| 0 <= x2 < seen@.len() ==> #[trigger] seen@[x2]@.len() == 0,
        decreases max_x + 1 - seen@.len(),
    {
        seen.push(Vec::new());
    }
    proof {
        assert forall|x2: int| 0 <= x2 <= mx implies #[trigger] sorted_states(seen@[x2]@) by {
        }
        assert forall|x2: int, q: Seq<AnnotatedVial<N>>| 0 <= x2 <= mx implies (#[trigger] holds(
            seen@[x2]@,
            q,
        ) <==> reached_before(init_s, mx, 0, x2, q)) by {
            if holds(seen@[x2]@, q) {
                let kk = choose|kk: int| 0 <= kk < seen@[x2]@.len() && #[trigger] seen@[x2]@[kk]@ == q;
            }
        }
    }
    let mut y: usize = 0;
    loop
        invariant
            seen@.len() == max_x + 1,
            forall|x2: int| 0 <= x2 <= mx ==> #[trigger] sorted_states(seen@[x2]@),
            forall|x2: int, q: Seq<AnnotatedVial<N>>|
                0 <= x2 <= mx ==> (#[trigger] holds(seen@[x2]@, q) <==> reached_before(
                    init_s,
                    mx,
                    y as int,
                    x2,
                    q,
                )),
            cur@.len() == max_x + 1,
            mx == max_x,
            init_s == initial_state(init@),
            mx == lowering_moves(init@, C as int),
            max_x < usize::MAX,
            y + max_x <= usize::MAX,
            forall|x2: int, q: Seq<AnnotatedVial<N>>|
                0 <= x2 <= mx ==> (#[trigger] holds(cur@[x2]@, q) <==> reaches_by_keeping(
                    init_s,
                    mx,
                    y as int,
                    x2,
                    q,
                )),
            forall|x2: int| 0 <= x2 <= mx ==> #[trigger] sorted_states(cur@[x2]@),
            forall|z: int| 0 <= z < y ==> !#[trigger] solved_at(init_s, mx, z),
        decreases usize::MAX - max_x - y,
    {
        let mut new_states = false;
        let mut next: Vec<Vec<[AnnotatedVial<N>; T]>> = Vec::new();
        while next.len() <= max_x
            invariant
                next@.len() <= max_x + 1,
                max_x < usize::MAX,
                forall|x2: int| 0 <= x2 < next@.len() ==> #[trigger] next@[x2]@.len() == 0,
            decreases max_x + 1 - next@.len(),
        {
            next.push(Vec::new());
        }
        proof {
            assert forall|x2: int| 0 <= x2 <= mx implies #[trigger] sorted_states(next@[x2]@) by {
            }
            assert forall|q: Seq<AnnotatedVial<N>>| holds(cur@[0]@, q) <==> reaches(
                init_s,
                mx,
                y as int,
                0,
                q,
            ) by {
                lemma_reaches_unfold(init_s, mx, y as int, 0, q);
            }
        }
        let mut x: usize = 0;
        while x < max_x
            invariant
                x <= max_x,
                cur@.len() == max_x + 1,
                next@.len() == max_x + 1,
                mx == max_x,
                forall|x2: int, q: Seq<AnnotatedVial<N>>|
                    0 <= x2 <= x ==> (#[trigger] holds(cur@[x2]@, q) <==> reaches(
                        init_s,
                        mx,
                        y as int,
                        x2,
                        q,
                    )),
                forall|x2: int, q: Seq<AnnotatedVial<N>>|
                    x < x2 <= mx ==> (#[trigger] holds(cur@[x2]@, q) <==> reaches_by_keeping(
                        init_s,
                        mx,
                        y as int,
                        x2,
                        q,
                    )),
                forall|x2: int, q: Seq<AnnotatedVial<N>>|
                    0 <= x2 < x ==> (#[trigger] holds(next@[x2]@, q) <==> reaches_by_keeping(
                        init_s,
                        mx,
                        y + 1,
                        x2,
                        q,
                    )),
                forall|x2: int| x <= x2 <= mx ==> #[trigger] next@[x2]@.len() == 0,
                !new_states ==> forall|x2: int| 0 <= x2 <= mx ==> #[trigger] next@[x2]@.len() == 0,
                forall|x2: int| 0 <= x2 <= mx ==> #[trigger] sorted_states(cur@[x2]@),
                forall|x2: int| 0 <= x2 <= mx ==> #[trigger] sorted_states(next@[x2]@),
            decreases max_x - x,
        {
            let ghost col = cur@[x as int]@;
            let len = cur[x].len();
            let mut k: usize = 0;
            while k < len
                invariant
                    x < max_x,
                    k <= len,
                    len == col.len(),
                    cur@.len() == max_x + 1,
                    next@.len() == max_x + 1,
                    mx == max_x,
                    cur@[x as int]@ == col,
                    forall|x2: int, q: Seq<AnnotatedVial<N>>|
                        0 <= x2 <= x ==> (#[trigger] holds(cur@[x2]@, q) <==> reaches(
                            init_s,
                            mx,
                            y as int,
                            x2,
                            q,
                        )),
                    forall|x2: int, q: Seq<AnnotatedVial<N>>|
                        x + 1 < x2 <= mx ==> (#[trigger] holds(cur@[x2]@, q) <==> reaches_by_keeping(
                            init_s,
                            mx,
                            y as int,
                            x2,
                            q,
                        )),
                    forall|q: Seq<AnnotatedVial<N>>|
                        #[trigger] holds(cur@[x + 1]@, q) <==> reaches_by_keeping(
                            init_s,
                            mx,
                            y as int,
                            x + 1,
                            q,
                        ) || moved_from(col, k as int, q, true),
                    forall|x2: int, q: Seq<AnnotatedVial<N>>|
                        0 <= x2 < x ==> (#[trigger] holds(next@[x2]@, q) <==> reaches_by_keeping(
                            init_s,
                            mx,
                            y + 1,
                            x2,
                            q,
                        )),
                    forall|q: Seq<AnnotatedVial<N>>|
                        #[trigger] holds(next@[x as int]@, q) <==> moved_from(col, k as int, q, false),
                    forall|x2: int| x < x2 <= mx ==> #[trigger] next@[x2]@.len() == 0,
                    !new_states ==> forall|x2: int|
                        0 <= x2 <= mx ==> #[trigger] next@[x2]@.len() == 0,
                    forall|x2: int| 0 <= x2 <= mx ==> #[trigger] sorted_states(cur@[x2]@),
                    forall|x2: int| 0 <= x2 <= mx ==> #[trigger] sorted_states(next@[x2]@),
                decreases len - k,
            {
                let s = cur[x][k];
                let ms = moves(&s);
                let mut m: usize = 0;
                while m < ms.len()
                    invariant
                        x < max_x,
                        k < len,
                        len == col.len(),
                        s@ == col[k as int]@,
                        m <= ms@.len(),
                        cur@.len() == max_x + 1,
                        next@.len() == max_x + 1,
                        mx == max_x,
                        cur@[x as int]@ == col,
                        forall|kk: int| 0 <= kk < ms@.len() ==> is_move(s@, #[trigger] ms@[kk].0@, ms@[kk].1),
                        forall|q: Seq<AnnotatedVial<N>>, lowers: bool|
                            is_move(s@, q, lowers) ==> listed(ms@, (q, lowers)),
                        forall|x2: int, q: Seq<AnnotatedVial<N>>|
                            0 <= x2 <= x ==> (#[trigger] holds(cur@[x2]@, q) <==> reaches(
                                init_s,
                                mx,
                                y as int,
                                x2,
                                q,
                            )),
                        forall|x2: int, q: Seq<AnnotatedVial<N>>|
                            x + 1 < x2 <= mx ==> (#[trigger] holds(cur@[x2]@, q)
                                <==> reaches_by_keeping(init_s, mx, y as int, x2, q)),
                        forall|q: Seq<AnnotatedVial<N>>|
                            #[trigger] holds(cur@[x + 1]@, q) <==> reaches_by_keeping(
                                init_s,
                                mx,
                                y as int,
                                x + 1,
                                q,
                            ) || moved_from(col, k as int, q, true) || listed_before(
                                ms@,
                                m as int,
                                q,
                                true,
                            ),
                        forall|x2: int, q: Seq<AnnotatedVial<N>>|
                            0 <= x2 < x ==> (#[trigger] holds(next@[x2]@, q) <==> reaches_by_keeping(
                                init_s,
                                mx,
                                y + 1,
                                x2,
                                q,
                            )),
                        forall|q: Seq<AnnotatedVial<N>>|
                            #[trigger] holds(next@[x as int]@, q) <==> moved_from(
                                col,
                                k as int,
                                q,
                                false,
                            ) || listed_before(ms@, m as int, q, false),
                        forall|x2: int| x < x2 <= mx ==> #[trigger] next@[x2]@.len() == 0,
                        !new_states ==> forall|x2: int|
                            0 <= x2 <= mx ==> #[trigger] next@[x2]@.len() == 0,
                        forall|x2: int| 0 <= x2 <= mx ==> #[trigger] sorted_states(cur@[x2]@),
                        forall|x2: int| 0 <= x2 <= mx ==> #[trigger] sorted_states(next@[x2]@),
                    decreases ms@.len() - m,
                {
                    let (p, lowers) = ms[m];
                    let ghost old_cur = cur@;
                    let ghost old_next = next@;
                    if lowers {
                        if insert_state(&mut cur[x + 1], p) {
                            new_states = true;
                        }
                    } else {
                        if insert_state(&mut next[x], p) {
                            new_states = true;
                        }
                    }
                    proof {
                        assert forall|q: Seq<AnnotatedVial<N>>, f: bool|
                            listed_before(ms@, m + 1, q, f) <==> listed_before(ms@, m as int, q, f)
                                || (p@ == q && lowers == f) by {
                            if listed_before(ms@, m + 1, q, f) && !(p@ == q && lowers == f) {
                                let m2 = choose|m2: int|
                                    0 <= m2 < m + 1 && #[trigger] ms@[m2].0@ == q && ms@[m2].1 == f;
                                assert(m2 != m);
                            }
                            if p@ == q && lowers == f {
                                assert(ms@[m as int].0@ == q);
                            }
                        }
                        assert forall|q: Seq<AnnotatedVial<N>>|
                            #[trigger] holds(cur@[x + 1]@, q) <==> (holds(old_cur[x + 1]@, q) || (
                            lowers && p@ == q)) by {
                        }
                        assert forall|q: Seq<AnnotatedVial<N>>|
                            #[trigger] holds(next@[x as int]@, q) <==> (holds(old_next[x as int]@, q)
                                || (!lowers && p@ == q)) by {
                        }
                    }
                    m += 1;
                }
                proof {
                    assert forall|q: Seq<AnnotatedVial<N>>, f: bool|
                        moved_from(col, k + 1, q, f) <==> moved_from(col, k as int, q, f)
                            || listed_before(ms@, ms@.len() as int, q, f) by {
                        if listed_before(ms@, ms@.len() as int, q, f) {
                            let m2 = choose|m2: int|
                                0 <= m2 < ms@.len() && #[trigger] ms@[m2].0@ == q && ms@[m2].1 == f;
                            assert(is_move(s@, ms@[m2].0@, ms@[m2].1));
                            assert(is_move(col[k as int]@, q, f));
                        }
                        if moved_from(col, k + 1, q, f) && !moved_from(col, k as int, q, f) {
                            let k2 = choose|k2: int|
                                0 <= k2 < k + 1 && #[trigger] is_move(col[k2]@, q, f);
                            assert(k2 == k);
                            assert(listed(ms@, (q, f)));
                            let m2 = choose|m2: int|
                                0 <= m2 < ms@.len() && #[trigger] ms@[m2].0@ == q && ms@[m2].1 == f;
                        }
                    }
                }
                k += 1;
            }
            proof {
                lemma_moved_from_column(init_s, mx, y as int, x as int, col);
                assert forall|q: Seq<AnnotatedVial<N>>|
                    #[trigger] holds(cur@[x + 1]@, q) <==> reaches(init_s, mx, y as int, x + 1, q) by {
                    lemma_reaches_unfold(init_s, mx, y as int, x + 1, q);
                }
                assert forall|q: Seq<AnnotatedVial<N>>|
                    #[trigger] holds(next@[x as int]@, q) <==> reaches_by_keeping(
                        init_s,
                        mx,
                        y + 1,
                        x as int,
                        q,
                    ) by {
                }
            }
            x += 1;
        }
        if cur[max_x].len() > 0 {
            proof {
                assert(holds(cur@[mx]@, cur@[mx]@[0]@));
                assert(solved_at(init_s, mx, y as int));
                let least = choose|z: int|
                    0 <= z && #[trigger] solved_at(init_s, mx, z) && forall|w: int|
                        0 <= w < z ==> !solved_at(init_s, mx, w);
                assert(least == y);
            }
            return Some(y + max_x);
        }
        proof {
            assert forall|q: Seq<AnnotatedVial<N>>| !reaches(init_s, mx, y as int, mx, q) by {
                if reaches(init_s, mx, y as int, mx, q) {
                    assert(holds(cur@[mx]@, q));
                    let kk = choose|kk: int| 0 <= kk < cur@[mx]@.len() && #[trigger] cur@[mx]@[kk]@ == q;
                }
            }
            assert(!solved_at(init_s, mx, y as int));
        }
        if !new_states {
            proof {
                assert forall|x2: int, q: Seq<AnnotatedVial<N>>|
                    !#[trigger] reaches_by_keeping(init_s, mx, y + 1, x2, q) by {
                    if 0 <= x2 < mx && reaches_by_keeping(init_s, mx, y + 1, x2, q) {
                        assert(holds(next@[x2]@, q));
                        let kk = choose|kk: int| 0 <= kk < next@[x2]@.len() && #[trigger] next@[x2]@[kk]@ == q;
                    }
                }
                assert forall|z: int| 0 <= z && z + mx <= usize::MAX implies !#[trigger] solved_at(
                    init_s,
                    mx,
                    z,
                ) by {
                    if z > y {
                        assert forall|q: Seq<AnnotatedVial<N>>| !reaches(init_s, mx, z, mx, q) by {
                            lemma_reaches_stops(init_s, mx, y + 1, z, mx, q);
                        }
                    }
                }
            }
            return None;
        }
        if y == usize::MAX - max_x {
            proof {
                assert forall|z: int| 0 <= z && z + mx <= usize::MAX implies !#[trigger] solved_at(
                    init_s,
                    mx,
                    z,
                ) by {
                    assert(z <= y);
                }
            }
            return None;
        }
        let mut fresh = false;
        let mut xs: usize = 0;
        while xs <= max_x
            invariant
                xs <= max_x + 1,
                max_x < usize::MAX,
                mx == max_x,
                cur@.len() == max_x + 1,
                seen@.len() == max_x + 1,
                forall|x2: int, q: Seq<AnnotatedVial<N>>|
                    0 <= x2 <= mx ==> (#[trigger] holds(cur@[x2]@, q) <==> reaches(
                        init_s,
                        mx,
                        y as int,
                        x2,
                        q,
                    )),
                forall|x2: int| 0 <= x2 <= mx ==> #[trigger] sorted_states(seen@[x2]@),
                forall|x2: int, q: Seq<AnnotatedVial<N>>|
                    0 <= x2 < xs ==> (#[trigger] holds(seen@[x2]@, q) <==> reached_before(
                        init_s,
                        mx,
                        y + 1,
                        x2,
                        q,
                    )),
                forall|x2: int, q: Seq<AnnotatedVial<N>>|
                    xs <= x2 <= mx ==> (#[trigger] holds(seen@[x2]@, q) <==> reached_before(
                        init_s,
                        mx,
                        y as int,
                        x2,
                        q,
                    )),
                !fresh ==> forall|x2: int, q: Seq<AnnotatedVial<N>>|
                    0 <= x2 < xs && #[trigger] reaches(init_s, mx, y as int, x2, q) ==> reached_before(
                        init_s,
                        mx,
                        y as int,
                        x2,
                        q,
                    ),
            decreases max_x + 1 - xs,
        {
            let ghost col = cur@[xs as int]@;
            let ghost seen0 = seen@[xs as int]@;
            let len = cur[xs].len();
            let mut k: usize = 0;
            while k < len
                invariant
                    k <= len,
                    len == col.len(),
                    xs <= max_x,
                    mx == max_x,
                    cur@.len() == max_x + 1,
                    seen@.len() == max_x + 1,
                    cur@[xs as int]@ == col,
                    forall|x2: int, q: Seq<AnnotatedVial<N>>|
                        0 <= x2 <= mx ==> (#[trigger] holds(cur@[x2]@, q) <==> reaches(
                            init_s,
                            mx,
                            y as int,
                            x2,
                            q,
                        )),
                    forall|x2: int| 0 <= x2 <= mx ==> #[trigger] sorted_states(seen@[x2]@),
                    forall|x2: int, q: Seq<AnnotatedVial<N>>|
                        0 <= x2 < xs ==> (#[trigger] holds(seen@[x2]@, q) <==> reached_before(
                            init_s,
                            mx,
                            y + 1,
                            x2,
                            q,
                        )),
                    forall|x2: int, q: Seq<AnnotatedVial<N>>|
                        xs < x2 <= mx ==> (#[trigger] holds(seen@[x2]@, q) <==> reached_before(
                            init_s,
                            mx,
                            y as int,
                            x2,
                            q,
                        )),
                    forall|q: Seq<AnnotatedVial<N>>|
                        #[trigger] holds(seen0, q) <==> reached_before(init_s, mx, y as int, xs as int, q),
                    forall|q: Seq<AnnotatedVial<N>>|
                        #[trigger] holds(seen@[xs as int]@, q) <==> holds(seen0, q) || holds(
                            col.take(k as int),
                            q,
                        ),
                    !fresh ==> forall|x2: int, q: Seq<AnnotatedVial<N>>|
                        0 <= x2 < xs && #[trigger] reaches(init_s, mx, y as int, x2, q)
                            ==> reached_before(init_s, mx, y as int, x2, q),
                    !fresh ==> forall|kk: int|
                        0 <= kk < k ==> reached_before(init_s, mx, y as int, xs as int, #[trigger] col[kk]@),
                decreases len - k,
            {
                let st = cur[xs][k];
                let ghost before = seen@[xs as int]@;
                let added = insert_state(&mut seen[xs], st);
                if added {
                    fresh = true;
                }
                proof {
                    assert forall|q: Seq<AnnotatedVial<N>>|
                        holds(col.take(k + 1), q) <==> holds(col.take(k as int), q) || col[k as int]@ == q by {
                        if holds(col.take(k + 1), q) && col[k as int]@ != q {
                            let kk = choose|kk: int| 0 <= kk < k + 1 && #[trigger] col.take(k + 1)[kk]@ == q;
                            assert(col.take(k as int)[kk]@ == q);
                        }
                        if holds(col.take(k as int), q) {
                            let kk = choose|kk: int| 0 <= kk < k && #[trigger] col.take(k as int)[kk]@ == q;
                            assert(col.take(k + 1)[kk]@ == q);
                        }
                        if col[k as int]@ == q {
                            assert(col.take(k + 1)[k as int]@ == q);
                        }
                    }
                    if !fresh {
                        assert(holds(before, st@));
                        if !holds(seen0, st@) {
                            let kk = choose|kk: int|
                                0 <= kk < k && #[trigger] col.take(k as int)[kk]@ == st@;
                            assert(col[kk]@ == st@);
                        }
                    }
                }
                k += 1;
            }
            proof {
                assert(col.take(len as int) =~= col);
                assert forall|q: Seq<AnnotatedVial<N>>|
                    #[trigger] holds(seen@[xs as int]@, q) <==> reached_before(
                        init_s,
                        mx,
                        y + 1,
                        xs as int,
                        q,
                    ) by {
                    lemma_reached_before_next(init_s, mx, y as int, xs as int, q);
                }
                if !fresh {
                    assert forall|q: Seq<AnnotatedVial<N>>|
                        #[trigger] reaches(init_s, mx, y as int, xs as int, q) implies reached_before(
                            init_s,
                            mx,
                            y as int,
                            xs as int,
                            q,
                        ) by {
                        assert(holds(col, q));
                        let kk = choose|kk: int| 0 <= kk < col.len() && #[trigger] col[kk]@ == q;
                    }
                }
            }
            xs += 1;
        }
        if !fresh {
            proof {
                assert forall|x2: int, q: Seq<AnnotatedVial<N>>|
                    #[trigger] reaches(init_s, mx, y as int, x2, q) implies reached_before(
                        init_s,
                        mx,
                        y as int,
                        x2,
                        q,
                    ) by {
                }
                assert forall|z: int| 0 <= z && z + mx <= usize::MAX implies !#[trigger] solved_at(
                    init_s,
                    mx,
                    z,
                ) by {
                    if z > y && solved_at(init_s, mx, z) {
                        let p = choose|p: Seq<AnnotatedVial<N>>| #[trigger] reaches(init_s, mx, z, mx, p);
                        lemma_nothing_new(init_s, mx, y as int, z, mx, p);
                        let z2 = choose|z2: int| 0 <= z2 < y && #[trigger] reaches(init_s, mx, z2, mx, p);
                        assert(solved_at(init_s, mx, z2));
                    }
                }
            }
            return None;
        }
        proof {
            assert forall|x2: int, q: Seq<AnnotatedVial<N>>|
                0 <= x2 <= mx implies (#[trigger] holds(next@[x2]@, q) <==> reaches_by_keeping(
                init_s,
                mx,
                y + 1,
                x2,
                q,
            )) by {
                if x2 == mx {
                    if holds(next@[x2]@, q) {
                        let kk = choose|kk: int| 0 <= kk < next@[x2]@.len() && #[trigger] next@[x2]@[kk]@ == q;
                    }
                }
            }
        }
        cur = next;
        y += 1;
    }
}

pub proof fn lemma_total_blocks_remove<const N: usize>(s: Seq<AnnotatedVial<N>>, i: int)
    requires
        0 <= i < s.len(),
    ensures
        total_blocks(s) == total_blocks(s.remove(i)) + s[i].blocks,
    decreases s.len(),
{
    if i == s.len() - 1 {
        assert(s.remove(i) =~= s.drop_last());
    } else {
        lemma_total_blocks_remove(s.drop_last(), i);
        assert(s.remove(i).drop_last() =~= s.drop_last().remove(i));
        assert(s.remove(i).last() == s.last());
    }
}

/// The total block count of a state does not depend on the order of its vials.
pub proof fn lemma_total_blocks_permutation<const N: usize>(
    a: Seq<AnnotatedVial<N>>,
    b: Seq<AnnotatedVial<N>>,
)
    requires
        a.to_multiset() == b.to_multiset(),
    ensures
        total_blocks(a) == total_blocks(b),
    decreases a.len(),
{
    broadcast use vstd::seq_lib::group_to_multiset_ensures;
    broadcast use vstd::multiset::group_multiset_axioms;

    vstd::seq_lib::to_multiset_len(a);
    vstd::seq_lib::to_multiset_len(b);
    if a.len() == 0 {
    } else {
        let x = a.last();
        assert(a.contains(x)) by {
            assert(a[a.len() - 1] == x);
        }
        vstd::seq_lib::to_multiset_contains(a, x);
        vstd::seq_lib::to_multiset_contains(b, x);
        let i = choose|i: int| 0 <= i < b.len() && b[i] == x;
        vstd::seq_lib::to_multiset_remove(b, i);
        vstd::seq_lib::to_multiset_remove(a, a.len() - 1);
        assert(a.remove(a.len() - 1) =~= a.drop_last());
        lemma_total_blocks_permutation(a.drop_last(), b.remove(i));
        lemma_total_blocks_remove(b, i);
    }
}

/// A state whose first `c` vials each hold at least one block has at least
/// `c` blocks.
pub proof fn lemma_total_blocks_at_least<const N: usize>(s: Seq<AnnotatedVial<N>>, c: int)
    requires
        0 <= c <= s.len(),
        forall|i: int| 0 <= i < c ==> #[trigger] s[i].blocks >= 1,
    ensures
        total_blocks(s) >= c,
    decreases s.len(),
{
    if s.len() > 0 {
        if c == s.len() {
            lemma_total_blocks_at_least(s.drop_last(), c - 1);
            assert(s.last() == s[c - 1]);
        } else {
            lemma_total_blocks_at_least(s.drop_last(), c);
        }
    }
}

/// When the first `c` vials each hold a colour, the solver's block count
/// is at least `c`: `solve` accepts the arrangement.
pub proof fn lemma_filled_vials_lowering<const N: usize>(vials: Seq<Vial<N>>, c: int)
    requires
        0 <= c <= vials.len(),
        forall|i: int| 0 <= i < c ==> first_filled(#[trigger] vials[i]@) < N,
    ensures
        lowering_moves(vials, c) >= 0,
{
    broadcast use lemma_vial_len;

    let s = vials.map_values(|v: Vial<N>| annotated(v));
    assert forall|i: int| 0 <= i < c implies #[trigger] s[i].blocks >= 1 by {
        lemma_block_count(vials[i]);
        assert(s[i] == annotated(vials[i]));
    }
    lemma_total_blocks_at_least(s, c);
    order::lemma_av_order::<N>();
    s.lemma_sort_by_ensures(order::av_order::<N>());
    lemma_total_blocks_permutation(s, canonical(s));
}

/// Mapping two sequences with the same elements gives sequences with the
/// same elements.
pub proof fn lemma_map_values_multiset<A, B>(a: Seq<A>, b: Seq<A>, f: spec_fn(A) -> B)
    requires
        a.to_multiset() == b.to_multiset(),
    ensures
        a.map_values(f).to_multiset() == b.map_values(f).to_multiset(),
    decreases a.len(),
{
    broadcast use vstd::multiset::group_multiset_axioms;

    vstd::seq_lib::to_multiset_len(a);
    vstd::seq_lib::to_multiset_len(b);
    if a.len() == 0 {
        assert(a.map_values(f) =~= Seq::<B>::empty());
        assert(b.map_values(f) =~= Seq::<B>::empty());
    } else {
        let x = a.last();
        assert(a.contains(x)) by {
            assert(a[a.len() - 1] == x);
        }
        vstd::seq_lib::to_multiset_contains(a, x);
        vstd::seq_lib::to_multiset_contains(b, x);
        let i = choose|i: int| 0 <= i < b.len() && b[i] == x;
        vstd::seq_lib::to_multiset_remove(b, i);
        vstd::seq_lib::to_multiset_remove(a, a.len() - 1);
        assert(a.remove(a.len() - 1) =~= a.drop_last());
        lemma_map_values_multiset(a.drop_last(), b.remove(i), f);
        let ma = a.map_values(f);
        let mb = b.map_values(f);
        assert(a.drop_last().map_values(f) =~= ma.remove(ma.len() - 1));
        assert(b.remove(i).map_values(f) =~= mb.remove(i));
        vstd::seq_lib::to_multiset_remove(ma, ma.len() - 1);
        vstd::seq_lib::to_multiset_remove(mb, i);
        assert(ma.contains(f(x))) by {
            assert(ma[ma.len() - 1] == f(x));
        }
        assert(mb.contains(f(x))) by {
            assert(mb[i] == f(x));
        }
        vstd::seq_lib::to_multiset_contains(ma, f(x));
        vstd::seq_lib::to_multiset_contains(mb, f(x));
        assert forall|v: B| #[trigger] ma.to_multiset().count(v) == mb.to_multiset().count(v) by {
            assert(ma.to_multiset().remove(f(x)).count(v) == mb.to_multiset().remove(f(x)).count(v));
        }
        assert(ma.to_multiset() =~= mb.to_multiset());
    }
}

/// Law: the solver's answer does not depend on the order of the vials.
pub proof fn law_solution_ignores_order<const N: usize>(a: Seq<Vial<N>>, b: Seq<Vial<N>>, c: int)
    requires
        a.to_multiset() == b.to_multiset(),
    ensures
        initial_state(a) == initial_state(b),
        solution(a, c) == solution(b, c),
{
    let ma = a.map_values(|v: Vial<N>| annotated(v));
    let mb = b.map_values(|v: Vial<N>| annotated(v));
    lemma_map_values_multiset(a, b, |v: Vial<N>| annotated(v));
    order::lemma_av_order::<N>();
    ma.lemma_sort_by_ensures(order::av_order::<N>());
    mb.lemma_sort_by_ensures(order::av_order::<N>());
    vstd::seq_lib::lemma_sorted_unique(canonical(ma), canonical(mb), order::av_order::<N>());
}

/// A sequence put in the order of a permutation of its indices holds the
/// same elements.
pub proof fn lemma_permutation_multiset<A>(a: Seq<A>, b: Seq<A>, perm: Seq<int>)
    requires
        perm.len() == a.len(),
        b.len() == a.len(),
        forall|k: int| 0 <= k < perm.len() ==> 0 <= #[trigger] perm[k] < a.len(),
        forall|k: int, l: int| 0 <= k < l < perm.len() ==> #[trigger] perm[k] != #[trigger] perm[l],
        forall|k: int| 0 <= k < b.len() ==> #[trigger] b[k] == a[perm[k]],
    ensures
        a.to_multiset() == b.to_multiset(),
    decreases a.len(),
{
    broadcast use vstd::multiset::group_multiset_axioms;

    if a.len() == 0 {
        assert(a =~= b);
    } else {
        let n = a.len() as int;
        let i = perm[n - 1];
        let a2 = a.remove(i);
        let b2 = b.drop_last();
        let perm2 = Seq::new(
            (n - 1) as nat,
            |k: int|
                if perm[k] < i {
                    perm[k]
                } else {
                    perm[k] - 1
                },
        );
        assert forall|k: int| 0 <= k < perm2.len() implies 0 <= #[trigger] perm2[k] < a2.len() by {
            assert(perm[k] != perm[n - 1]);
        }
        assert forall|k: int, l: int| 0 <= k < l < perm2.len() implies #[trigger] perm2[k]
            != #[trigger] perm2[l] by {
            assert(perm[k] != perm[l]);
            assert(perm[k] != perm[n - 1]);
            assert(perm[l] != perm[n - 1]);
        }
        assert forall|k: int| 0 <= k < b2.len() implies #[trigger] b2[k] == a2[perm2[k]] by {
            assert(b[k] == a[perm[k]]);
            assert(perm[k] != perm[n - 1]);
        }
        lemma_permutation_multiset(a2, b2, perm2);
        vstd::seq_lib::to_multiset_remove(a, i);
        assert(b2.push(b[n - 1]) =~= b);
        vstd::seq_lib::to_multiset_build(b2, b[n - 1]);
        assert(b[n - 1] == a[i]);
        assert(a.contains(a[i]));
        vstd::seq_lib::to_multiset_contains(a, a[i]);
        assert(a.to_multiset() =~= a2.to_multiset().insert(a[i]));
    }
}

/// Law: the solver's answer does not depend on the order of the vials: `b`
/// holds the vials of `a` in the order of the permutation `perm` of their
/// indices.
pub proof fn law_solution_ignores_permutation<const N: usize>(
    a: Seq<Vial<N>>,
    b: Seq<Vial<N>>,
    perm: Seq<int>,
    c: int,
)
    requires
        perm.len() == a.len(),
        b.len() == a.len(),
        forall|k: int| 0 <= k < perm.len() ==> 0 <= #[trigger] perm[k] < a.len(),
        forall|k: int, l: int| 0 <= k < l < perm.len() ==> #[trigger] perm[k] != #[trigger] perm[l],
        forall|k: int| 0 <= k < b.len() ==> #[trigger] b[k] == a[perm[k]],
    ensures
        solution(a, c) == solution(b, c),
{
    lemma_permutation_multiset(a, b, perm);
    law_solution_ignores_order(a, b, c);
}

pub proof fn lemma_least_solved<const N: usize>(init: Seq<AnnotatedVial<N>>, mx: int, y: int)
    requires
        0 <= y,
        solved_at(init, mx, y),
    ensures
        exists|z: int|
            0 <= z <= y && #[trigger] solved_at(init, mx, z) && forall|w: int|
                0 <= w < z ==> !solved_at(init, mx, w),
    decreases y,
{
    if exists|w: int| 0 <= w < y && #[trigger] solved_at(init, mx, w) {
        let w = choose|w: int| 0 <= w < y && #[trigger] solved_at(init, mx, w);
        lemma_least_solved(init, mx, w);
    } else {
        assert(forall|w: int| 0 <= w < y ==> !solved_at(init, mx, w));
    }
}

proof fn lemma_shortest_zero<const N: usize>(init: Seq<AnnotatedVial<N>>, mx: int)
    requires
        mx >= 0,
    ensures
        shortest_solution(init, mx) == Some(0int) <==> mx == 0,
        shortest_solution(init, mx) matches Some(k) ==> k >= mx,
{
    if exists|y: int| 0 <= y && y + mx <= usize::MAX && #[trigger] solved_at(init, mx, y) {
        let y0 = choose|y: int| 0 <= y && y + mx <= usize::MAX && #[trigger] solved_at(init, mx, y);
        lemma_least_solved(init, mx, y0);
        let y = choose|y: int|
            0 <= y && #[trigger] solved_at(init, mx, y) && forall|z: int|
                0 <= z < y ==> !solved_at(init, mx, z);
        assert(shortest_solution(init, mx) == Some(mx + y));
        if mx == 0 {
            assert(reaches(init, mx, 0, 0, init));
            assert(solved_at(init, mx, 0));
            assert(y == 0);
        }
    } else if mx == 0 {
        assert(reaches(init, mx, 0, 0, init));
        assert(solved_at(init, mx, 0));
    }
}

/// A shortest solution of `k` moves reaches a state with `mx` lowering moves
/// and `k - mx` others, and none is reached with fewer others.
pub proof fn lemma_shortest_reached<const N: usize>(init: Seq<AnnotatedVial<N>>, mx: int, k: int)
    requires
        shortest_solution(init, mx) == Some(k),
    ensures
        solved_at(init, mx, k - mx),
        k - mx >= 0,
        forall|w: int| 0 <= w < k - mx ==> !#[trigger] solved_at(init, mx, w),
{
    let y0 = choose|y: int| 0 <= y && y + mx <= usize::MAX && #[trigger] solved_at(init, mx, y);
    lemma_least_solved(init, mx, y0);
}

/// Law: the solver answers 0 exactly when no move that lowers the block
/// count is needed, and never fewer moves than the lowering moves needed.
pub proof fn law_solution_zero<const N: usize>(vials: Seq<Vial<N>>, c: int)
    requires
        lowering_moves(vials, c) >= 0,
    ensures
        solution(vials, c) == Some(0int) <==> lowering_moves(vials, c) == 0,
        solution(vials, c) matches Some(k) ==> k >= lowering_moves(vials, c),
{
    lemma_shortest_zero(initial_state(vials), lowering_moves(vials, c));
}

/// A state whose first `c` vials hold at least one block each and whose
/// other vials hold none has exactly `c` blocks when each of the first `c`
/// holds exactly one, and more otherwise.
pub proof fn lemma_total_blocks_exact<const N: usize>(s: Seq<AnnotatedVial<N>>, c: int)
    requires
        0 <= c <= s.len(),
        forall|i: int| 0 <= i < c ==> #[trigger] s[i].blocks >= 1,
        forall|i: int| c <= i < s.len() ==> #[trigger] s[i].blocks == 0,
    ensures
        total_blocks(s) >= c,
        total_blocks(s) == c <==> forall|i: int| 0 <= i < c ==> #[trigger] s[i].blocks == 1,
    decreases s.len(),
{
    if s.len() > 0 {
        let dl = s.drop_last();
        assert(forall|i: int| 0 <= i < dl.len() ==> #[trigger] dl[i] == s[i]);
        assert(s.last() == s[s.len() - 1]);
        if c == s.len() {
            lemma_total_blocks_exact(dl, c - 1);
            if total_blocks(s) == c {
                assert forall|i: int| 0 <= i < c implies #[trigger] s[i].blocks == 1 by {
                    if i < c - 1 {
                        assert(dl[i].blocks == 1);
                    }
                }
            }
            if forall|i: int| 0 <= i < c ==> #[trigger] s[i].blocks == 1 {
                assert forall|i: int| 0 <= i < c - 1 implies #[trigger] dl[i].blocks == 1 by {
                    assert(s[i].blocks == 1);
                }
            }
        } else {
            lemma_total_blocks_exact(dl, c);
            if total_blocks(s) == c {
                assert forall|i: int| 0 <= i < c implies #[trigger] s[i].blocks == 1 by {
                    assert(dl[i].blocks == 1);
                }
            }
            if forall|i: int| 0 <= i < c ==> #[trigger] s[i].blocks == 1 {
                assert forall|i: int| 0 <= i < c implies #[trigger] dl[i].blocks == 1 by {
                    assert(s[i].blocks == 1);
                }
            }
        }
    }
}

/// A vial whose cells are all filled has one block exactly when all its
/// cells hold the same colour.
pub proof fn lemma_one_block_uniform<const N: usize>(v: Vial<N>)
    requires
        N > 0,
        forall|k: int| 0 <= k < N ==> #[trigger] v@[k] != 0,
    ensures
        first_filled(v@) == 0,
        block_count(v@) == 1 <==> forall|k: int| 0 <= k < N ==> #[trigger] v@[k] == v@[0],
{
    broadcast use lemma_vial_len;

    assert(v@[0] != 0);
    lemma_changes_uniform(v@, 0, N as int);
}

pub proof fn lemma_changes_uniform(s: Seq<u8>, lo: int, hi: int)
    requires
        0 <= lo < hi <= s.len(),
    ensures
        changes_between(s, lo, hi) == 0 <==> forall|k: int| lo <= k < hi ==> #[trigger] s[k] == s[lo],
    decreases hi - lo,
{
    if hi > lo + 1 {
        lemma_changes_uniform(s, lo, hi - 1);
        lemma_changes_between(s, lo, hi - 1);
        if changes_between(s, lo, hi) == 0 {
            assert(s[hi - 1] == s[hi - 2]);
            assert(s[hi - 2] == s[lo]);
        }
        if forall|k: int| lo <= k < hi ==> #[trigger] s[k] == s[lo] {
            assert(s[hi - 1] == s[lo]);
            assert(s[hi - 2] == s[lo]);
        }
    }
}

} // verus!
