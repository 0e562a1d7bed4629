use vstd::prelude::*;

use crate::puzzle::{colour_buffer, dealt, lemma_shuffled_filled, shuffle_state, shuffled, Vial};
use crate::rng::CountingRng;
use crate::solver::{lemma_filled_vials_lowering, solution, solve};

verus! {

/// Deals one arrangement of `C` colours over `T` vials of height `N` and
/// solves it: the least number of moves, or `None` when it cannot be solved.
pub fn sim_single<const N: usize, const T: usize, const C: usize>(rng: &mut CountingRng) -> (r:
    Option<usize>)
    requires
        C <= 255,
        C <= T,
        C == 0 || N > 0,
        T * N < usize::MAX,
    ensures
        final(rng).draws() == old(rng).draws() + 1,
        final(rng).shuffles().len() == old(rng).shuffles().len() + 1,
        final(rng).shuffles().last().0 == colour_buffer(C as int, N as int),
        exists|vials: Seq<Vial<N>>|
            vials.len() == T && #[trigger] shuffled(vials, C as int) && dealt(
                vials,
                final(rng).shuffles().last().1,
                C as int,
            ) && match r {
                Some(k) => solution(vials, C as int) == Some(k as int),
                None => solution(vials, C as int) is None,
            },
{
    broadcast use vstd::array::group_array_axioms;

    proof {
        assert(C * N <= T * N) by (nonlinear_arith)
            requires
                C <= T,
        ;
    }
    let mut state = [Vial::new([0;N]);T];
    shuffle_state::<N, T, C>(&mut state, rng);
    proof {
        if C > 0 {
            lemma_shuffled_filled(state@, C as int);
        }
        lemma_filled_vials_lowering(state@, C as int);
    }
    solve::<N, T, C>(state)
}

} // verus!
