use rand::rngs::StdRng;
use std::marker::PhantomData;
use vstd::prelude::*;

use crate::rng::CountingRng;
use crate::solver::order::{self, canonical};
use crate::solver::{
    annotated, law_solution_zero, lemma_block_count, lemma_one_block_uniform,
    lemma_total_blocks_exact, lemma_total_blocks_permutation, lowering_moves, solution, solve,
};
use crate::utils::comp_time_arith::{IsSum, SixEqualsFourPlusTwo};

verus! {

/// A vial of height `N`. Cell `0` is the top of the vial and `0` marks an
/// empty cell; any other value is a colour.
#[derive(Debug, Clone, Copy, PartialEq, Eq, PartialOrd, Ord, Hash)]
pub struct Vial<const N: usize> {
    inner: [u8; N],
}

impl<const N: usize> View for Vial<N> {
    type V = Seq<u8>;

    closed spec fn view(&self) -> Seq<u8> {
        self.inner@
    }
}

/// A vial always has `N` cells.
pub broadcast proof fn lemma_vial_len<const N: usize>(v: Vial<N>)
    ensures
        #[trigger] v@.len() == N,
{
}

/// Two vials with the same cells are the same vial.
pub proof fn lemma_vial_ext<const N: usize>(a: Vial<N>, b: Vial<N>)
    requires
        a@ == b@,
    ensures
        a == b,
{
    assert(a.inner =~= b.inner);
}

/// The vial whose cells are `s`.
pub open spec fn vial_with<const N: usize>(s: Seq<u8>) -> Vial<N> {
    choose|v: Vial<N>| v@ == s
}

pub proof fn lemma_vial_with<const N: usize>(v: Vial<N>)
    ensures
        vial_with::<N>(v@) == v,
{
    assert(exists|u: Vial<N>| u@ == v@) by {
        assert(v@ == v@);
    }
    lemma_vial_ext(vial_with::<N>(v@), v);
}

/// `base` with its first `k` cells replaced by those of `s`.
spec fn cells_from<const N: usize>(base: [u8; N], s: Seq<u8>, k: int) -> [u8; N]
    decreases k,
{
    if k <= 0 {
        base
    } else {
        vstd::array::spec_array_update(cells_from(base, s, k - 1), k - 1, s[k - 1])
    }
}

proof fn lemma_cells_from<const N: usize>(base: [u8; N], s: Seq<u8>, k: int)
    requires
        s.len() == N,
        0 <= k <= N,
    ensures
        cells_from(base, s, k)@ == Seq::new(N as nat, |i: int| if i < k { s[i] } else { base@[i] }),
    decreases k,
{
    broadcast use vstd::array::group_array_axioms;

    if k > 0 {
        lemma_cells_from(base, s, k - 1);
    }
    assert(cells_from(base, s, k)@ =~= Seq::new(
        N as nat,
        |i: int| if i < k { s[i] } else { base@[i] },
    ));
}

/// Any `N` cells make a vial: `vial_with` gives it.
pub proof fn lemma_vial_with_cells<const N: usize>(base: Vial<N>, s: Seq<u8>)
    requires
        s.len() == N,
    ensures
        vial_with::<N>(s)@ == s,
{
    lemma_cells_from(base.inner, s, N as int);
    let v = Vial { inner: cells_from(base.inner, s, N as int) };
    assert(v@ =~= s);
}

/// Index of the first filled cell at or below `i`, or `s.len()` when there is none.
pub open spec fn first_filled_from(s: Seq<u8>, i: int) -> int
    decreases s.len() - i,
{
    if 0 <= i < s.len() {
        if s[i] != 0 {
            i
        } else {
            first_filled_from(s, i + 1)
        }
    } else {
        s.len() as int
    }
}

/// Index of the topmost filled cell, or `s.len()` when the vial is empty.
pub open spec fn first_filled(s: Seq<u8>) -> int {
    first_filled_from(s, 0)
}

/// Index of the lowest empty cell at or above `i`, or `-1` when there is none.
pub open spec fn last_empty_from(s: Seq<u8>, i: int) -> int
    decreases i + 1,
{
    if 0 <= i < s.len() {
        if s[i] == 0 {
            i
        } else {
            last_empty_from(s, i - 1)
        }
    } else {
        -1
    }
}

/// Index of the lowest empty cell, or `-1` when the vial is full.
pub open spec fn last_empty(s: Seq<u8>) -> int {
    last_empty_from(s, s.len() - 1)
}

/// Number of consecutive cells of colour `c` from cell `i` downwards.
pub open spec fn run_from(s: Seq<u8>, i: int, c: u8) -> int
    decreases s.len() - i,
{
    if 0 <= i < s.len() && s[i] == c {
        1 + run_from(s, i + 1, c)
    } else {
        0
    }
}

/// A pour is possible when the source holds something and the destination
/// has an empty cell.
pub open spec fn can_pour(src: Seq<u8>, dst: Seq<u8>) -> bool {
    first_filled(src) < src.len() && last_empty(dst) >= 0
}

/// The colour on top of the source.
pub open spec fn pour_colour(src: Seq<u8>) -> u8 {
    src[first_filled(src)]
}

/// How many cells a pour moves: the top run of the source, but no more
/// than the destination's lowest empty cell leaves room for.
pub open spec fn pour_amount(src: Seq<u8>, dst: Seq<u8>) -> int {
    let n = run_from(src, first_filled(src), pour_colour(src));
    let room = last_empty(dst) + 1;
    if n <= room {
        n
    } else {
        room
    }
}

/// The two vials after a pour from the first into the second, or the same
/// two vials when no pour is possible.
pub open spec fn pour_vials<const N: usize>(src: Vial<N>, dst: Vial<N>) -> (Vial<N>, Vial<N>) {
    if can_pour(src@, dst@) {
        (vial_with(poured_src(src@, dst@)), vial_with(poured_dst(src@, dst@)))
    } else {
        (src, dst)
    }
}

/// The source after a pour: the moved cells become empty.
pub open spec fn poured_src(src: Seq<u8>, dst: Seq<u8>) -> Seq<u8> {
    let f = first_filled(src);
    let m = pour_amount(src, dst);
    Seq::new(src.len(), |k: int| if f <= k < f + m { 0u8 } else { src[k] })
}

/// The destination after a pour: the moved colour fills the cells from the
/// lowest empty cell upwards.
pub open spec fn poured_dst(src: Seq<u8>, dst: Seq<u8>) -> Seq<u8> {
    let t = last_empty(dst);
    let m = pour_amount(src, dst);
    Seq::new(dst.len(), |k: int| if t - m < k <= t { pour_colour(src) } else { dst[k] })
}

pub proof fn lemma_run_from_nonneg(s: Seq<u8>, i: int, c: u8)
    ensures
        run_from(s, i, c) >= 0,
    decreases s.len() - i,
{
    if 0 <= i < s.len() && s[i] == c {
        lemma_run_from_nonneg(s, i + 1, c);
    }
}

pub proof fn lemma_first_filled_from(s: Seq<u8>, i: int)
    requires
        0 <= i <= s.len(),
    ensures
        i <= first_filled_from(s, i) <= s.len(),
        forall|k: int| i <= k < first_filled_from(s, i) ==> s[k] == 0,
        first_filled_from(s, i) < s.len() ==> s[first_filled_from(s, i)] != 0,
    decreases s.len() - i,
{
    if i < s.len() && s[i] == 0 {
        lemma_first_filled_from(s, i + 1);
    }
}

pub proof fn lemma_last_empty_from(s: Seq<u8>, i: int)
    requires
        -1 <= i < s.len(),
    ensures
        -1 <= last_empty_from(s, i) <= i,
        forall|k: int| last_empty_from(s, i) < k <= i ==> s[k] != 0,
        last_empty_from(s, i) >= 0 ==> s[last_empty_from(s, i)] == 0,
    decreases i + 1,
{
    if i >= 0 && s[i] != 0 {
        lemma_last_empty_from(s, i - 1);
    }
}

impl<const N: usize> Vial<N> {
    pub fn new(inner: [u8; N]) -> (v: Self)
        ensures
            v@ == inner@,
    {
        Self { inner }
    }

    /// Index of the topmost filled cell, `N` when the vial is empty.
    pub(crate) fn first_filled_index(&self) -> (i: usize)
        ensures
            i == first_filled(self@),
            i <= N,
    {
        proof {
            lemma_first_filled_from(self@, 0);
        }
        let mut i: usize = 0;
        while i < N && self.inner[i] == 0
            invariant
                i <= N,
                self@.len() == N,
                first_filled(self@) == first_filled_from(self@, i as int),
            decreases N - i,
        {
            i += 1;
        }
        i
    }

    /// Number of consecutive cells of colour `c` from cell `i` downwards.
    pub(crate) fn run_length(&self, i: usize, c: u8) -> (n: usize)
        requires
            i <= N,
        ensures
            n == run_from(self@, i as int, c),
    {
        let mut k: usize = i;
        proof {
            lemma_run_from_nonneg(self@, i as int, c);
        }
        while k < N && self.inner[k] == c
            invariant
                i <= k <= N,
                self@.len() == N,
                run_from(self@, i as int, c) == (k - i) + run_from(self@, k as int, c),
            decreases N - k,
        {
            k += 1;
        }
        k - i
    }

    /// Iterates over the cells, top first.
    pub fn iter(&self) -> (it: std::slice::Iter<'_, u8>)
        ensures
            vstd::std_specs::iter::IteratorSpec::remaining(&it) == self@.as_ref(),
    {
        broadcast use vstd::array::group_array_axioms;
        broadcast use vstd::std_specs::slice::axiom_spec_slice_iter;

        self.inner.as_slice().iter()
    }

    /// The colour in cell `i` (`0` when empty).
    pub fn get(&self, i: usize) -> (c: u8)
        requires
            i < N,
        ensures
            c == self@[i as int],
    {
        self.inner[i]
    }
}

/// Pours the top run of `src` into `dst`: as many cells of that colour as
/// fit are moved, filling `dst` upwards from its lowest empty cell. Returns
/// `false`, and changes nothing, when `src` is empty or `dst` is full.
pub fn pour<const N: usize>(src: &mut Vial<N>, dst: &mut Vial<N>) -> (poured: bool)
    ensures
        poured == can_pour(old(src)@, old(dst)@),
        poured ==> final(src)@ == poured_src(old(src)@, old(dst)@),
        poured ==> final(dst)@ == poured_dst(old(src)@, old(dst)@),
        !poured ==> *final(src) == *old(src) && *final(dst) == *old(dst),
        (*final(src), *final(dst)) == pour_vials(*old(src), *old(dst)),
        poured <==> (exists|k: int| 0 <= k < N && old(src)@[k] != 0) && (exists|k: int|
            0 <= k < N && old(dst)@[k] == 0),
        poured <==> *final(src) != *old(src),
{
    broadcast use vstd::array::group_array_axioms;

    proof {
        law_pour_happens_iff_possible(*old(src), *old(dst));
    }
    let ghost src0 = src@;
    let ghost dst0 = dst@;
    proof {
        lemma_first_filled_from(src0, 0);
        lemma_last_empty_from(dst0, N - 1);
    }
    let mut from: usize = 0;
    while from < N && src.inner[from] == 0
        invariant
            from <= N,
            src@ == src0,
            src0.len() == N,
            first_filled(src0) == first_filled_from(src0, from as int),
        decreases N - from,
    {
        from += 1;
    }
    if from == N {
        return false;
    }
    let mut k: usize = N;
    while k > 0 && dst.inner[k - 1] != 0
        invariant
            k <= N,
            dst@ == dst0,
            dst0.len() == N,
            last_empty(dst0) == last_empty_from(dst0, k - 1),
        decreases k,
    {
        k -= 1;
    }
    if k == 0 {
        return false;
    }
    let mut to: usize = k - 1;
    let c = src.inner[from];
    let ghost from0 = from as int;
    let ghost to0 = to as int;
    let mut done = false;
    proof {
        lemma_run_from_nonneg(src0, from0, c);
    }
    while !done && from < N && src.inner[from] == c
        invariant
            from0 <= from <= N,
            0 <= to <= to0 < N,
            src0.len() == N,
            dst0.len() == N,
            !done ==> to == to0 - (from - from0),
            done ==> from - from0 == to0 + 1,
            run_from(src0, from0, c) == (from - from0) + run_from(src0, from as int, c),
            run_from(src0, from as int, c) >= 0,
            src@ == Seq::new(N as nat, |i: int| if from0 <= i < from { 0u8 } else { src0[i] }),
            dst@ == Seq::new(
                N as nat,
                |i: int|
                    if (done && i <= to0) || (!done && to < i <= to0) {
                        c
                    } else {
                        dst0[i]
                    },
            ),
        decreases N - from,
    {
        proof {
            lemma_run_from_nonneg(src0, from + 1, c);
        }
        src.inner[from] = 0;
        dst.inner[to] = c;
        if to == 0 {
            done = true;
        } else {
            to -= 1;
        }
        from += 1;
        assert(src@ =~= Seq::new(N as nat, |i: int| if from0 <= i < from { 0u8 } else { src0[i] }));
        assert(dst@ =~= Seq::new(
            N as nat,
            |i: int|
                if (done && i <= to0) || (!done && to < i <= to0) {
                    c
                } else {
                    dst0[i]
                },
        ));
    }
    assert(src@ =~= poured_src(src0, dst0));
    assert(dst@ =~= poured_dst(src0, dst0));
    proof {
        lemma_vial_with(*src);
        lemma_vial_with(*dst);
    }
    true
}

/// Law: a pour between two vials is possible exactly when the source holds
/// a filled cell and the destination an empty one, and it changes the
/// source exactly then (so a pour that is reported changes something).
pub proof fn law_pour_happens_iff_possible<const N: usize>(src: Vial<N>, dst: Vial<N>)
    ensures
        can_pour(src@, dst@) <==> (exists|k: int| 0 <= k < N && src@[k] != 0) && (exists|k: int|
            0 <= k < N && dst@[k] == 0),
        can_pour(src@, dst@) <==> pour_vials(src, dst).0 != src,
        !can_pour(src@, dst@) ==> pour_vials(src, dst) == (src, dst),
{
    broadcast use lemma_vial_len;

    let s = src@;
    let d = dst@;
    lemma_first_filled_from(s, 0);
    lemma_last_empty_from(d, N - 1);
    if exists|k: int| 0 <= k < N && s[k] != 0 {
        let k = choose|k: int| 0 <= k < N && s[k] != 0;
        assert(first_filled(s) <= k);
    }
    if exists|k: int| 0 <= k < N && d[k] == 0 {
        let k = choose|k: int| 0 <= k < N && d[k] == 0;
        assert(last_empty(d) >= k);
    }
    if can_pour(s, d) {
        let f = first_filled(s);
        assert(s[f] != 0);
        assert(d[last_empty(d)] == 0);
        lemma_run_from_nonneg(s, f + 1, pour_colour(s));
        assert(run_from(s, f, pour_colour(s)) >= 1);
        assert(pour_amount(s, d) >= 1);
        lemma_vial_with_cells(src, poured_src(s, d));
        assert(pour_vials(src, dst).0@[f] == 0);
    }
}

/// The contents of a vial rest at its bottom: below a filled cell every
/// cell is filled.
pub open spec fn settled(s: Seq<u8>) -> bool {
    forall|i: int, j: int| 0 <= i <= j < s.len() && #[trigger] s[i] != 0 ==> #[trigger] s[j] != 0
}

proof fn lemma_pour_counts_step(src: Seq<u8>, dst: Seq<u8>, k: int)
    requires
        can_pour(src, dst),
        0 <= k <= pour_amount(src, dst),
        forall|i: int|
            first_filled(src) <= i < first_filled(src) + pour_amount(src, dst) ==> src[i]
                == pour_colour(src),
        forall|i: int| last_empty(dst) - pour_amount(src, dst) < i <= last_empty(dst) ==> dst[i] == 0,
        0 <= first_filled(src),
        first_filled(src) + pour_amount(src, dst) <= src.len(),
        0 <= last_empty(dst) - pour_amount(src, dst) + 1,
        last_empty(dst) < dst.len(),
    ensures
        (Seq::new(
            src.len(),
            |i: int| if first_filled(src) <= i < first_filled(src) + k { 0u8 } else { src[i] },
        ) + Seq::new(
            dst.len(),
            |i: int| if last_empty(dst) - k < i <= last_empty(dst) { pour_colour(src) } else { dst[i] },
        )).to_multiset() == (src + dst).to_multiset(),
    decreases k,
{
    let f = first_filled(src);
    let t = last_empty(dst);
    let c = pour_colour(src);
    let a = Seq::new(src.len(), |i: int| if f <= i < f + k { 0u8 } else { src[i] });
    let b = Seq::new(dst.len(), |i: int| if t - k < i <= t { c } else { dst[i] });
    if k == 0 {
        assert(a =~= src);
        assert(b =~= dst);
    } else {
        lemma_pour_counts_step(src, dst, k - 1);
        let a0 = Seq::new(src.len(), |i: int| if f <= i < f + (k - 1) { 0u8 } else { src[i] });
        let b0 = Seq::new(dst.len(), |i: int| if t - (k - 1) < i <= t { c } else { dst[i] });
        let before = a0 + b0;
        let mid = before.update(f + k - 1, 0u8);
        assert(a + b =~= mid.update(src.len() + t - k + 1, c));
        vstd::seq_lib::to_multiset_update(before, f + k - 1, 0u8);
        vstd::seq_lib::to_multiset_update(mid, src.len() + t - k + 1, c);
        assert(before[f + k - 1] == c);
        assert(mid[src.len() + t - k + 1] == 0u8);
        assert(before.contains(c)) by {
            assert(before[f + k - 1] == c);
        }
        vstd::seq_lib::to_multiset_contains(before, c);
        assert(mid.contains(0u8)) by {
            assert(mid[f + k - 1] == 0u8);
        }
        vstd::seq_lib::to_multiset_contains(mid, 0u8);
        assert((a + b).to_multiset() =~= before.to_multiset());
    }
}

/// Law: pouring into a vial whose contents rest at its bottom moves colour
/// without creating or losing any: the two vials together hold the same
/// cells as before.
pub proof fn law_pour_keeps_colours<const N: usize>(src: Vial<N>, dst: Vial<N>)
    requires
        settled(dst@),
    ensures
        (pour_vials(src, dst).0@ + pour_vials(src, dst).1@).to_multiset() == (src@ + dst@).to_multiset(),
{
    broadcast use lemma_vial_len;

    if can_pour(src@, dst@) {
        let s = src@;
        let d = dst@;
        lemma_first_filled_from(s, 0);
        lemma_last_empty_from(d, N - 1);
        lemma_run_from_nonneg(s, first_filled(s), pour_colour(s));
        lemma_run_from_prefix(s, first_filled(s), pour_colour(s));
        assert forall|i: int| last_empty(d) - pour_amount(s, d) < i <= last_empty(d) implies d[i]
            == 0 by {
            if d[i] != 0 {
                assert(d[last_empty(d)] != 0);
            }
        }
        lemma_pour_counts_step(s, d, pour_amount(s, d));
        lemma_vial_with_cells(src, poured_src(s, d));
        lemma_vial_with_cells(src, poured_dst(s, d));
    }
}

pub proof fn lemma_run_from_prefix(s: Seq<u8>, i: int, c: u8)
    requires
        0 <= i,
    ensures
        i + run_from(s, i, c) <= s.len() || run_from(s, i, c) == 0,
        forall|k: int| i <= k < i + run_from(s, i, c) ==> s[k] == c,
    decreases s.len() - i,
{
    if 0 <= i < s.len() && s[i] == c {
        lemma_run_from_prefix(s, i + 1, c);
    }
}

/// Law: pouring between two vials whose contents rest at their bottoms
/// leaves both so.
pub proof fn law_pour_keeps_settled<const N: usize>(src: Vial<N>, dst: Vial<N>)
    requires
        settled(src@),
        settled(dst@),
    ensures
        settled(pour_vials(src, dst).0@),
        settled(pour_vials(src, dst).1@),
{
    broadcast use lemma_vial_len;

    if can_pour(src@, dst@) {
        let s = src@;
        let d = dst@;
        lemma_first_filled_from(s, 0);
        lemma_last_empty_from(d, N - 1);
        lemma_run_from_nonneg(s, first_filled(s), pour_colour(s));
        lemma_run_from_prefix(s, first_filled(s), pour_colour(s));
        assert(pour_colour(s) != 0);
        let s2 = poured_src(s, d);
        let d2 = poured_dst(s, d);
        lemma_vial_with_cells(src, s2);
        lemma_vial_with_cells(src, d2);
        assert(pour_vials(src, dst).0@ == s2);
        assert(pour_vials(src, dst).1@ == d2);
        assert forall|i: int, j: int| 0 <= i <= j < s2.len() && #[trigger] s2[i] != 0 implies #[trigger] s2[j]
            != 0 by {
            assert(s[i] != 0);
        }
        assert forall|i: int, j: int| 0 <= i <= j < d2.len() && #[trigger] d2[i] != 0 implies #[trigger] d2[j]
            != 0 by {
            if j > last_empty(d) {
            } else if i > last_empty(d) - pour_amount(s, d) {
            } else {
                assert(d[i] != 0);
                assert(d[last_empty(d)] != 0);
            }
        }
    }
}

/// The colours a new puzzle is dealt from: `n` cells of each colour `1..=c`
/// (colour numbers wrap at 256, as a `u8` does).
pub open spec fn colour_buffer(c: int, n: int) -> Seq<u8> {
    Seq::new((c * n) as nat, |i: int| (i / n + 1) as u8)
}

/// `vials` holds `buf` dealt out: vial `i < c` gets cells `i * n .. i * n + n`
/// of `buf`, the other vials are empty.
pub open spec fn dealt<const N: usize>(vials: Seq<Vial<N>>, buf: Seq<u8>, c: int) -> bool {
    forall|i: int|
        0 <= i < vials.len() ==> #[trigger] vials[i]@ == if i < c {
            buf.subrange(i * N, i * N + N)
        } else {
            Seq::new(N as nat, |k: int| 0u8)
        }
}

/// `vials` holds the colours of `colour_buffer(c, N)` in some arrangement,
/// dealt out over the first `c` vials.
pub open spec fn shuffled<const N: usize>(vials: Seq<Vial<N>>, c: int) -> bool {
    exists|buf: Seq<u8>|
        buf.len() == c * N && #[trigger] buf.to_multiset() == colour_buffer(c, N as int).to_multiset()
            && dealt(vials, buf, c)
}

/// Deals `buf` out over `state`: vial `i < C` gets cells `i * N .. i * N + N`,
/// the rest are emptied.
pub fn fill_state<const N: usize, const T: usize, const C: usize>(
    state: &mut [Vial<N>; T],
    buf: &Vec<u8>,
)
    requires
        buf@.len() == C * N,
        C * N <= usize::MAX,
    ensures
        dealt(final(state)@, buf@, C as int),
{
    broadcast use vstd::array::group_array_axioms;
    broadcast use lemma_vial_len;

    let mut i: usize = 0;
    while i < T && i < C
        invariant
            i <= T,
            i <= C,
            buf@.len() == C * N,
            C * N <= usize::MAX,
            state@.len() == T,
            forall|j: int| 0 <= j < i ==> #[trigger] state@[j]@ == buf@.subrange(j * N, j * N + N),
        decreases T - i,
    {
        assert(i * N + N <= C * N) by (nonlinear_arith)
            requires
                i < C,
        ;
        let s = i * N;
        let mut cells = [0u8; N];
        let mut k: usize = 0;
        while k < N
            invariant
                k <= N,
                s == i * N,
                buf@.len() == C * N,
                C * N <= usize::MAX,
                s + N <= buf@.len(),
                cells@.len() == N,
                forall|j: int| 0 <= j < k ==> cells@[j] == buf@[s + j],
            decreases N - k,
        {
            cells[k] = buf[s + k];
            k += 1;
        }
        state[i] = Vial { inner: cells };
        assert(state@[i as int]@ =~= buf@.subrange(i * N, i * N + N));
        i += 1;
    }
    while i < T
        invariant
            i <= T,
            i < T ==> C <= i,
            state@.len() == T,
            forall|j: int|
                0 <= j < i && j < C ==> #[trigger] state@[j]@ == buf@.subrange(j * N, j * N + N),
            forall|j: int| C <= j < i ==> #[trigger] state@[j]@ == Seq::new(N as nat, |k: int| 0u8),
        decreases T - i,
    {
        state[i] = Vial { inner: [0u8; N] };
        assert(state@[i as int]@ =~= Seq::new(N as nat, |k: int| 0u8));
        i += 1;
    }
}

/// Deals a new arrangement into `state`: the colours `1..=C`, `N` cells of
/// each, shuffled with `rng`, over the first `C` vials; the other vials are
/// emptied. The arrangement need not be solvable.
pub fn shuffle_state<const N: usize, const T: usize, const C: usize>(
    state: &mut [Vial<N>; T],
    rng: &mut CountingRng,
)
    requires
        C * N <= usize::MAX,
    ensures
        shuffled(final(state)@, C as int),
        final(rng).draws() == old(rng).draws() + 1,
        final(rng).shuffles().len() == old(rng).shuffles().len() + 1,
        final(rng).shuffles().drop_last() == old(rng).shuffles(),
        final(rng).shuffles().last().0 == colour_buffer(C as int, N as int),
        dealt(final(state)@, final(rng).shuffles().last().1, C as int),
{
    let mut buf: Vec<u8> = Vec::with_capacity(C * N);
    let mut c: usize = 0;
    while c < C
        invariant
            c <= C,
            C * N <= usize::MAX,
            buf@ == colour_buffer(c as int, N as int),
        decreases C - c,
    {
        let mut j: usize = 0;
        while j < N
            invariant
                c < C,
                j <= N,
                C * N <= usize::MAX,
                buf@.len() == c * N + j,
                forall|i: int| 0 <= i < buf@.len() ==> #[trigger] buf@[i] == (i / N as int + 1) as u8,
            decreases N - j,
        {
            assert((c * N + j) / N as int == c) by (nonlinear_arith)
                requires
                    0 <= j < N,
            ;
            assert(c * N + j < C * N) by (nonlinear_arith)
                requires
                    j < N,
                    c < C,
            ;
            buf.push(#[verifier::truncate] ((c + 1) as u8));
            j += 1;
        }
        assert(buf@ =~= colour_buffer(c + 1, N as int)) by {
            assert(c * N + N == (c + 1) * N) by (nonlinear_arith);
        }
        c += 1;
    }
    rng.shuffle(&mut buf);
    fill_state::<N, T, C>(state, &buf);
    assert(buf@.len() == C * N);
}

pub type Puzzle = GenericPuzzle<5, 6, 4, 2, SixEqualsFourPlusTwo, CountingRng>;

/// A water sort puzzle: `T = C + K` vials of height `N`, `C` colours and `K`
/// vials that start empty. It remembers the arrangement it was dealt (to
/// reset to) and the least number of moves that solves it.
pub struct GenericPuzzle<const N: usize, const T: usize, const C: usize, const K: usize, P, R> where
    P: IsSum<C, K, T>,
 {
    inner: [Vial<N>; T],
    dealt: [Vial<N>; T],
    steps: usize,
    rng: R,
    proof: PhantomData<P>,
}

/// In an arrangement dealt from the colour buffer (with fewer than 256
/// colours), every cell of the first `c` vials holds a colour and the other
/// vials are empty.
pub proof fn lemma_shuffled_filled<const N: usize>(vials: Seq<Vial<N>>, c: int)
    requires
        shuffled(vials, c),
        0 <= c <= 255,
        c <= vials.len(),
        N > 0,
    ensures
        forall|i: int, k: int| 0 <= i < c && 0 <= k < N ==> #[trigger] vials[i]@[k] != 0,
        forall|i: int| 0 <= i < c ==> first_filled(#[trigger] vials[i]@) < N,
        forall|i: int, k: int| c <= i < vials.len() && 0 <= k < N ==> #[trigger] vials[i]@[k] == 0,
{
    broadcast use lemma_vial_len;

    let buf = choose|buf: Seq<u8>|
        buf.len() == c * N && #[trigger] buf.to_multiset() == colour_buffer(c, N as int).to_multiset()
            && dealt(vials, buf, c);
    let cb = colour_buffer(c, N as int);
    assert forall|i: int, k: int| 0 <= i < c && 0 <= k < N implies #[trigger] vials[i]@[k] != 0 by {
        assert(i * N + N <= c * N) by (nonlinear_arith)
            requires
                i < c,
        ;
        assert(vials[i]@ == buf.subrange(i * N, i * N + N));
        let v = buf[i * N + k];
        assert(vials[i]@[k] == v);
        assert(buf.contains(v)) by {
            assert(buf[i * N + k] == v);
        }
        vstd::seq_lib::to_multiset_contains(buf, v);
        vstd::seq_lib::to_multiset_contains(cb, v);
        let j = choose|j: int| 0 <= j < cb.len() && cb[j] == v;
        assert(0 <= j / (N as int) < c) by (nonlinear_arith)
            requires
                0 <= j < c * N,
                N > 0,
        ;
    }
    assert forall|i: int| 0 <= i < c implies first_filled(#[trigger] vials[i]@) < N by {
        assert(vials[i]@[0] != 0);
        lemma_first_filled_from(vials[i]@, 0);
    }
    assert forall|i: int, k: int| c <= i < vials.len() && 0 <= k < N implies #[trigger] vials[i]@[k]
        == 0 by {
        assert(vials[i]@ == Seq::new(N as nat, |k: int| 0u8));
    }
}

/// Law: an arrangement dealt from the colour buffer is solved (every vial
/// holds a single colour or nothing) exactly when the solver needs no moves.
pub proof fn law_solved_iff_no_moves<const N: usize>(vials: Seq<Vial<N>>, c: int)
    requires
        shuffled(vials, c),
        0 <= c <= 255,
        c <= vials.len(),
        N > 0,
    ensures
        all_uniform(vials) <==> solution(vials, c) == Some(0int),
{
    broadcast use lemma_vial_len;

    lemma_shuffled_filled(vials, c);
    let s = vials.map_values(|v: Vial<N>| annotated(v));
    assert forall|i: int| 0 <= i < c implies #[trigger] s[i].blocks >= 1 && (s[i].blocks == 1
        <==> uniform(vials[i]@)) by {
        assert(s[i] == annotated(vials[i]));
        lemma_block_count(vials[i]);
        lemma_one_block_uniform(vials[i]);
    }
    assert forall|i: int| c <= i < s.len() implies #[trigger] s[i].blocks == 0 && uniform(
        vials[i]@,
    ) by {
        assert(s[i] == annotated(vials[i]));
        lemma_first_filled_from(vials[i]@, 0);
        assert(first_filled(vials[i]@) == N);
    }
    lemma_total_blocks_exact(s, c);
    order::lemma_av_order::<N>();
    s.lemma_sort_by_ensures(order::av_order::<N>());
    lemma_total_blocks_permutation(s, canonical(s));
    law_solution_zero(vials, c);
    if all_uniform(vials) {
        assert forall|i: int| 0 <= i < c implies #[trigger] s[i].blocks == 1 by {
            assert(uniform(vials[i]@));
        }
    }
    if solution(vials, c) == Some(0int) {
        assert forall|i: int| 0 <= i < vials.len() implies uniform(#[trigger] vials[i]@) by {
            if i < c {
                assert(s[i].blocks == 1);
            }
        }
    }
}

impl<const N: usize, const T: usize, const C: usize, const K: usize, P> GenericPuzzle<
    N,
    T,
    C,
    K,
    P,
    CountingRng,
> where P: IsSum<C, K, T> {
    /// The vials as they stand.
    pub closed spec fn vials(&self) -> Seq<Vial<N>> {
        self.inner@
    }

    /// The vials as they were dealt.
    pub closed spec fn dealt_vials(&self) -> Seq<Vial<N>> {
        self.dealt@
    }

    /// The least number of moves that solves the dealt arrangement.
    pub closed spec fn least_moves(&self) -> usize {
        self.steps
    }

    /// The puzzle's random number generator.
    pub closed spec fn generator(&self) -> CountingRng {
        self.rng
    }

    /// How many arrangements have been shuffled and dealt so far: the
    /// shuffles made with the puzzle's generator.
    pub closed spec fn deals_made(&self) -> nat {
        self.rng.draws()
    }

    /// A puzzle always has `T` vials, as they stand and as they were dealt.
    pub proof fn lemma_vials_len(&self)
        ensures
            self.vials().len() == T,
            self.dealt_vials().len() == T,
    {
    }

    /// Law: a puzzle as dealt (by `new` or `regenerate`, or put back by
    /// `reset`) whose least number of moves was found is solved exactly when
    /// that number is 0.
    pub proof fn law_dealt_solved_iff_no_moves(&self)
        requires
            C <= 255,
            N > 0,
            self.vials() == self.dealt_vials(),
            shuffled(self.vials(), C as int),
            solution(self.vials(), C as int) == Some(self.least_moves() as int),
        ensures
            all_uniform(self.vials()) <==> self.least_moves() == 0,
    {
        P::sum_holds();
        self.lemma_vials_len();
        law_solved_iff_no_moves(self.vials(), C as int);
    }

    /// A puzzle of `C` colours of `N` cells each, shuffled with `rng`.
    pub fn new(rng: StdRng) -> (p: Self)
        requires
            C <= 255,
            C == 0 || N > 0,
            T * N < usize::MAX,
        ensures
            p.vials().len() == T,
            p.dealt_vials() == p.vials(),
            shuffled(p.vials(), C as int),
            1 <= p.deals_made() <= usize::MAX + 1,
            p.generator().shuffles().len() >= 1,
            p.generator().shuffles().last().0 == colour_buffer(C as int, N as int),
            dealt(p.vials(), p.generator().shuffles().last().1, C as int),
            match solution(p.vials(), C as int) {
                Some(k) => p.least_moves() == k,
                None => p.least_moves() == 0 && p.deals_made() == usize::MAX + 1,
            },
    {
        let inner = [Vial::new([0;N]);T];
        let mut this = Self {
            dealt: inner,
            inner,
            steps: 0,
            rng: CountingRng::new(rng),
            proof: PhantomData,
        };
        this.regenerate();
        this
    }

    /// Deals a new arrangement and finds the least number of moves that
    /// solves it; an arrangement that cannot be solved is dealt again, up to
    /// `usize::MAX + 1` deals in all, after which the last one is kept with
    /// the least number of moves unchanged.
    pub fn regenerate(&mut self)
        requires
            C <= 255,
            C == 0 || N > 0,
            T * N < usize::MAX,
        ensures
            final(self).vials().len() == T,
            final(self).dealt_vials() == final(self).vials(),
            shuffled(final(self).vials(), C as int),
            old(self).deals_made() < final(self).deals_made() <= old(self).deals_made() + usize::MAX
                + 1,
            final(self).generator().shuffles().len() > old(self).generator().shuffles().len(),
            final(self).generator().shuffles().last().0 == colour_buffer(C as int, N as int),
            dealt(final(self).vials(), final(self).generator().shuffles().last().1, C as int),
            match solution(final(self).vials(), C as int) {
                Some(k) => final(self).least_moves() == k,
                None => final(self).least_moves() == old(self).least_moves()
                    && final(self).deals_made() == old(self).deals_made() + usize::MAX + 1,
            },
    {
        broadcast use vstd::array::group_array_axioms;

        proof {
            P::sum_holds();
            assert(C * N <= T * N) by (nonlinear_arith)
                requires
                    C <= T,
            ;
        }
        let ghost old_steps = self.steps;
        let ghost old_deals = self.rng.draws();
        let ghost old_shuffles = self.rng.shuffles();
        let mut tries: usize = 0;
        loop
            invariant_except_break
                self.steps == old_steps,
                self.rng.draws() == old_deals + tries,
                self.rng.shuffles().len() >= old_shuffles.len() + tries,
                C + K == T,
                C <= 255,
                C == 0 || N > 0,
                T * N < usize::MAX,
                C * N <= usize::MAX,
            ensures
                shuffled(self.inner@, C as int),
                old_deals < self.rng.draws() <= old_deals + usize::MAX + 1,
                self.rng.shuffles().len() > old_shuffles.len(),
                self.rng.shuffles().last().0 == colour_buffer(C as int, N as int),
                dealt(self.inner@, self.rng.shuffles().last().1, C as int),
                match solution(self.inner@, C as int) {
                    Some(k) => self.steps == k,
                    None => self.steps == old_steps && self.rng.draws() == old_deals + usize::MAX + 1,
                },
            decreases usize::MAX - tries,
        {
            shuffle_state::<N, T, C>(&mut self.inner, &mut self.rng);
            proof {
                if C > 0 {
                    lemma_shuffled_filled(self.inner@, C as int);
                }
                crate::solver::lemma_filled_vials_lowering(self.inner@, C as int);
            }
            match solve::<N, T, C>(self.inner) {
                Some(steps) => {
                    self.steps = steps;
                    break;
                },
                None => {
                    if tries == usize::MAX {
                        break;
                    }
                    tries += 1;
                },
            }
        }
        self.dealt = self.inner;
    }

    /// Vial `i` as it stands.
    pub fn get(&self, i: usize) -> (v: &Vial<N>)
        requires
            i < T,
        ensures
            *v == self.vials()[i as int],
    {
        &self.inner[i]
    }

    /// The least number of moves that solves the dealt arrangement.
    pub fn min_moves(&self) -> (m: usize)
        ensures
            m == self.least_moves(),
    {
        self.steps
    }

    /// Every vial holds a single colour from top to bottom, or is empty.
    pub fn is_solved(&self) -> (solved: bool)
        requires
            T == 0 || N > 0,
        ensures
            solved == all_uniform(self.vials()),
            solved <==> forall|i: int, k: int|
                0 <= i < T && 0 <= k < N ==> #[trigger] self.vials()[i]@[k] == self.vials()[i]@[0],
    {
        proof {
            self.lemma_vials_len();
            assert forall|i: int| 0 <= i < T implies #[trigger] self.vials()[i]@.len() == N by {
                lemma_vial_len(self.vials()[i]);
            }
        }
        broadcast use vstd::array::group_array_axioms;
        broadcast use lemma_vial_len;

        let mut i: usize = 0;
        while i < T
            invariant
                i <= T,
                T == 0 || N > 0,
                forall|j: int| 0 <= j < i ==> uniform(#[trigger] self.inner@[j]@),
            decreases T - i,
        {
            let vial = &self.inner[i];
            let expected = vial.inner[0];
            let mut k: usize = 0;
            while k < N
                invariant
                    k <= N,
                    N > 0,
                    i < T,
                    *vial == self.inner@[i as int],
                    expected == self.inner@[i as int]@[0],
                    forall|j: int| 0 <= j < k ==> #[trigger] self.inner@[i as int]@[j] == expected,
                decreases N - k,
            {
                if vial.inner[k] != expected {
                    assert(!uniform(self.inner@[i as int]@));
                    return false;
                }
                k += 1;
            }
            i += 1;
        }
        true
    }

    /// Puts the vials back as they were dealt.
    pub fn reset(&mut self)
        ensures
            final(self).vials() == old(self).dealt_vials(),
            final(self).dealt_vials() == old(self).dealt_vials(),
            final(self).least_moves() == old(self).least_moves(),
            final(self).deals_made() == old(self).deals_made(),
    {
        self.inner = self.dealt;
    }

    /// Pours vial `src` into vial `dst` (see `pour`). Returns `false`, and
    /// changes nothing, when the two are the same vial, when either index is
    /// out of range, or when no pour is possible.
    pub fn pour(&mut self, src: usize, dst: usize) -> (poured: bool)
        ensures
            final(self).dealt_vials() == old(self).dealt_vials(),
            final(self).least_moves() == old(self).least_moves(),
            final(self).deals_made() == old(self).deals_made(),
            poured == pours_at(old(self).vials(), src as int, dst as int),
            final(self).vials() == after_pour(old(self).vials(), src as int, dst as int),
            poured <==> final(self).vials() != old(self).vials(),
            poured <==> src != dst && src < T && dst < T && (exists|k: int|
                0 <= k < N && old(self).vials()[src as int]@[k] != 0) && (exists|k: int|
                0 <= k < N && old(self).vials()[dst as int]@[k] == 0),
    {
        proof {
            old(self).lemma_vials_len();
            law_puzzle_pour_iff_change(old(self).vials(), src as int, dst as int);
        }
        broadcast use vstd::array::group_array_axioms;

        if src == dst {
            return false;
        }
        if src >= T || dst >= T {
            return false;
        }
        let mut vial1 = self.inner[src];
        let mut vial2 = self.inner[dst];
        let poured = pour(&mut vial1, &mut vial2);
        self.inner[src] = vial1;
        self.inner[dst] = vial2;
        poured
    }
}

/// Vial `src` of `vials` can be poured into vial `dst`.
pub open spec fn pours_at<const N: usize>(vials: Seq<Vial<N>>, src: int, dst: int) -> bool {
    &&& src != dst
    &&& 0 <= src < vials.len()
    &&& 0 <= dst < vials.len()
    &&& can_pour(vials[src]@, vials[dst]@)
}

/// The vials after pouring vial `src` into vial `dst`; the same vials when
/// the indices are equal or out of range.
pub open spec fn after_pour<const N: usize>(vials: Seq<Vial<N>>, src: int, dst: int) -> Seq<Vial<N>> {
    if src != dst && 0 <= src < vials.len() && 0 <= dst < vials.len() {
        let p = pour_vials(vials[src], vials[dst]);
        vials.update(src, p.0).update(dst, p.1)
    } else {
        vials
    }
}

/// The vials after the pours `ps` (pairs of source and destination index),
/// applied in turn as `after_pour` applies one.
pub open spec fn play<const N: usize>(vials: Seq<Vial<N>>, ps: Seq<(int, int)>) -> Seq<Vial<N>>
    decreases ps.len(),
{
    if ps.len() == 0 {
        vials
    } else {
        after_pour(play(vials, ps.drop_last()), ps.last().0, ps.last().1)
    }
}

/// Every pour of `ps` succeeds: each is possible on the vials that the
/// pours before it leave.
pub open spec fn plays_out<const N: usize>(vials: Seq<Vial<N>>, ps: Seq<(int, int)>) -> bool {
    forall|m: int|
        0 <= m < ps.len() ==> pours_at(#[trigger] play(vials, ps.take(m)), ps[m].0, ps[m].1)
}

/// Every cell of the vial holds the colour of its top cell.
pub open spec fn uniform(s: Seq<u8>) -> bool {
    forall|k: int| 0 <= k < s.len() ==> #[trigger] s[k] == s[0]
}

/// Every vial is uniform.
pub open spec fn all_uniform<const N: usize>(vials: Seq<Vial<N>>) -> bool {
    forall|i: int| 0 <= i < vials.len() ==> uniform(#[trigger] vials[i]@)
}

/// Law: pouring vial `src` of `vials` into vial `dst` is possible exactly
/// when they are two different vials, the source holds a filled cell and
/// the destination an empty one; and exactly then the pour changes the
/// vials.
pub proof fn law_puzzle_pour_iff_change<const N: usize>(vials: Seq<Vial<N>>, src: int, dst: int)
    ensures
        pours_at(vials, src, dst) <==> src != dst && 0 <= src < vials.len() && 0 <= dst < vials.len()
            && (exists|k: int| 0 <= k < N && vials[src]@[k] != 0) && (exists|k: int|
            0 <= k < N && vials[dst]@[k] == 0),
        pours_at(vials, src, dst) <==> after_pour(vials, src, dst) != vials,
{
    if src != dst && 0 <= src < vials.len() && 0 <= dst < vials.len() {
        law_pour_happens_iff_possible(vials[src], vials[dst]);
        let p = pour_vials(vials[src], vials[dst]);
        if can_pour(vials[src]@, vials[dst]@) {
            assert(after_pour(vials, src, dst)[src] == p.0);
        } else {
            assert(after_pour(vials, src, dst) =~= vials);
        }
    }
}

/// Law: a uniform vial holds the colour of its top cell in every cell, so
/// it is full of one colour or empty: a vial with an empty cell above a
/// filled one is not uniform.
pub proof fn law_uniform_is_one_colour(s: Seq<u8>)
    ensures
        uniform(s) <==> forall|k: int| 0 <= k < s.len() ==> #[trigger] s[k] == s[0],
        (exists|a: int, b: int| 0 <= a < b < s.len() && #[trigger] s[a] == 0 && #[trigger] s[b] != 0)
            ==> !uniform(s),
        uniform(s) && s.len() > 0 ==> (forall|k: int| 0 <= k < s.len() ==> #[trigger] s[k] == 0)
            || (forall|k: int| 0 <= k < s.len() ==> #[trigger] s[k] != 0),
{
    if exists|a: int, b: int| 0 <= a < b < s.len() && s[a] == 0 && s[b] != 0 {
        let (a, b) = choose|a: int, b: int| 0 <= a < b < s.len() && s[a] == 0 && s[b] != 0;
        if uniform(s) {
            assert(s[a] == s[0]);
            assert(s[b] == s[0]);
        }
    }
    if uniform(s) && s.len() > 0 && s[0] != 0 {
        assert forall|k: int| 0 <= k < s.len() implies s[k] != 0 by {
            assert(s[k] == s[0]);
        }
    }
}

/// Law: the vials that a deal gives follow the shuffled buffer: vial `i < c`
/// holds cells `i * N .. i * N + N` of it in order, the others are empty,
/// and two deals give the same vials exactly when the buffers are the same.
pub proof fn law_deal_follows_shuffle<const N: usize>(
    v1: Seq<Vial<N>>,
    v2: Seq<Vial<N>>,
    b1: Seq<u8>,
    b2: Seq<u8>,
    c: int,
)
    requires
        v1.len() == v2.len(),
        0 <= c <= v1.len(),
        b1.len() == c * N,
        b2.len() == c * N,
        dealt(v1, b1, c),
        dealt(v2, b2, c),
    ensures
        forall|i: int, k: int| 0 <= i < c && 0 <= k < N ==> #[trigger] v1[i]@[k] == b1[i * N + k],
        forall|i: int, k: int| c <= i < v1.len() && 0 <= k < N ==> #[trigger] v1[i]@[k] == 0,
        v1 == v2 <==> b1 == b2,
{
    broadcast use lemma_vial_len;

    assert forall|i: int, k: int| 0 <= i < c && 0 <= k < N implies #[trigger] v1[i]@[k] == b1[i
        * N + k] by {
        assert(v1[i]@ == b1.subrange(i * N, i * N + N));
        assert(i * N + N <= c * N) by (nonlinear_arith)
            requires
                i < c,
        ;
    }
    assert forall|i: int, k: int| c <= i < v1.len() && 0 <= k < N implies #[trigger] v1[i]@[k]
        == 0 by {
        assert(v1[i]@ == Seq::new(N as nat, |k: int| 0u8));
    }
    if b1 == b2 {
        assert forall|i: int| 0 <= i < v1.len() implies #[trigger] v1[i] == v2[i] by {
            assert(v1[i]@ == v2[i]@);
            lemma_vial_ext(v1[i], v2[i]);
        }
        assert(v1 =~= v2);
    }
    if v1 == v2 {
        assert forall|j: int| 0 <= j < b1.len() implies b1[j] == b2[j] by {
            let i = j / (N as int);
            let k = j % (N as int);
            assert(N > 0) by (nonlinear_arith)
                requires
                    0 <= j < c * N,
                    c >= 0,
            ;
            assert(0 <= i < c && 0 <= k < N && j == i * N + k) by (nonlinear_arith)
                requires
                    0 <= j < c * N,
                    N > 0,
                    i == j / (N as int),
                    k == j % (N as int),
            ;
            assert(i * N + N <= c * N) by (nonlinear_arith)
                requires
                    i < c,
            ;
            assert(v1[i]@ == b1.subrange(i * N, i * N + N));
            assert(v2[i]@ == b2.subrange(i * N, i * N + N));
            assert(b1[j] == v1[i]@[k]);
            assert(b2[j] == v2[i]@[k]);
        }
        assert(b1 =~= b2);
    }
}

} // verus!
