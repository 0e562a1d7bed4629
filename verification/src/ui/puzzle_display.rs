use vstd::prelude::*;

use crate::puzzle::{after_pour, all_uniform, colour_buffer, dealt, pours_at, shuffled, GenericPuzzle};
use crate::rng::CountingRng;
use crate::solver::solution;
use crate::utils::comp_time_arith::{IsSum, SixEqualsFourPlusTwo};

verus! {

pub const EMPTY_COLOUR: &'static str = "#f8f9fa";

pub const BLUE: &'static str = "#0072B2";

pub const VERMILION: &'static str = "#D55E00";

pub const GREEN: &'static str = "#009E73";

pub const PINK: &'static str = "#CC79A7";

/// The colour a cell is painted in: colours `1..=4` have their own, an
/// empty cell (or any other value) is painted as empty.
pub fn colour_map(c: u8) -> (colour: &'static str)
    ensures
        colour == match c {
            1 => BLUE,
            2 => VERMILION,
            3 => GREEN,
            4 => PINK,
            _ => EMPTY_COLOUR,
        },
{
    match c {
        1 => BLUE,
        2 => VERMILION,
        3 => GREEN,
        4 => PINK,
        _ => EMPTY_COLOUR,
    }
}

/// A request from the page: a click on a vial, or on one of the buttons.
pub enum Msg {
    Select(usize),
    Reset,
    NewPuzzle,
}

/// What the page says under the puzzle.
#[derive(Debug, Clone, Copy, PartialEq, Eq)]
pub enum SolvedNotice {
    /// Nothing: the puzzle is not solved.
    Hidden,
    /// Solved in no more moves than the least number.
    Solved,
    /// Solved, with more moves than the least number.
    SolvedWithSpareMoves,
}

/// A change the page makes in answer to a request.
#[derive(Debug, Clone, Copy, PartialEq, Eq)]
pub enum Effect {
    /// Mark vial `i` as selected and every other vial as not.
    HighlightVial(usize),
    /// Mark no vial as selected and paint every cell as the puzzle stands.
    Repaint,
    /// Show the number of moves made.
    ShowMoveCount(usize),
    /// Show the least number of moves that solves the puzzle.
    ShowMinMoves(usize),
    /// Show (or hide) the notice under the puzzle.
    ShowSolved(SolvedNotice),
}

/// The notice for a puzzle that is `solved` or not, after `move_count`
/// moves, when `min_moves` would have done.
pub open spec fn notice_for(solved: bool, min_moves: int, move_count: int) -> SolvedNotice {
    if !solved {
        SolvedNotice::Hidden
    } else if min_moves < move_count {
        SolvedNotice::SolvedWithSpareMoves
    } else {
        SolvedNotice::Solved
    }
}

/// Picks the notice to show; see `notice_for`.
pub fn solved_notice(solved: bool, min_moves: usize, move_count: usize) -> (n: SolvedNotice)
    ensures
        n == notice_for(solved, min_moves as int, move_count as int),
{
    if !solved {
        SolvedNotice::Hidden
    } else if min_moves < move_count {
        SolvedNotice::SolvedWithSpareMoves
    } else {
        SolvedNotice::Solved
    }
}

pub type Session = GenericSession<5, 6, 4, 2, SixEqualsFourPlusTwo>;

/// The state behind the page: the puzzle, the selected vial (a click
/// selects a source, the next click pours it) and the moves made.
pub struct GenericSession<const N: usize, const T: usize, const C: usize, const K: usize, P> where
    P: IsSum<C, K, T>,
 {
    puzzle: GenericPuzzle<N, T, C, K, P, CountingRng>,
    active_index: Option<usize>,
    move_count: usize,
}

impl<const N: usize, const T: usize, const C: usize, const K: usize, P> GenericSession<
    N,
    T,
    C,
    K,
    P,
> where P: IsSum<C, K, T> {
    pub closed spec fn game(&self) -> GenericPuzzle<N, T, C, K, P, CountingRng> {
        self.puzzle
    }

    pub closed spec fn selected(&self) -> Option<usize> {
        self.active_index
    }

    pub closed spec fn moves_made(&self) -> usize {
        self.move_count
    }

    pub fn new(puzzle: GenericPuzzle<N, T, C, K, P, CountingRng>) -> (s: Self)
        ensures
            s.game() == puzzle,
            s.selected() is None,
            s.moves_made() == 0,
    {
        Self { puzzle, active_index: None, move_count: 0 }
    }

    pub fn puzzle(&self) -> (p: &GenericPuzzle<N, T, C, K, P, CountingRng>)
        ensures
            *p == self.game(),
    {
        &self.puzzle
    }

    pub fn move_count(&self) -> (m: usize)
        ensures
            m == self.moves_made(),
    {
        self.move_count
    }

    pub fn active_index(&self) -> (a: Option<usize>)
        ensures
            a == self.selected(),
    {
        self.active_index
    }

    /// Answers a request: updates the puzzle, the selection and the move
    /// count, and lists the changes the page makes, in order.
    pub fn handle(&mut self, msg: Msg) -> (effects: Vec<Effect>)
        requires
            msg is NewPuzzle ==> C <= 255 && (C == 0 || N > 0) && T * N < usize::MAX,
            (msg is Select && old(self).selected() is Some) ==> T == 0 || N > 0,
            match (msg, old(self).selected()) {
                (Msg::Select(idx), Some(src)) => pours_at(
                    old(self).game().vials(),
                    src as int,
                    idx as int,
                ) ==> old(self).moves_made() < usize::MAX,
                _ => true,
            },
        ensures
            match msg {
                Msg::Select(idx) => match old(self).selected() {
                    None => {
                        &&& final(self).game() == old(self).game()
                        &&& final(self).selected() == Some(idx)
                        &&& final(self).moves_made() == old(self).moves_made()
                        &&& effects@ == seq![Effect::HighlightVial(idx)]
                    },
                    Some(src) => {
                        let poured = pours_at(old(self).game().vials(), src as int, idx as int);
                        let vials = after_pour(old(self).game().vials(), src as int, idx as int);
                        let moves = if poured {
                            old(self).moves_made() + 1
                        } else {
                            old(self).moves_made() as int
                        };
                        &&& final(self).game().vials() == vials
                        &&& final(self).game().dealt_vials() == old(self).game().dealt_vials()
                        &&& final(self).game().least_moves() == old(self).game().least_moves()
                        &&& final(self).game().deals_made() == old(self).game().deals_made()
                        &&& final(self).selected() is None
                        &&& final(self).moves_made() == moves
                        &&& effects@ == (if poured {
                            seq![Effect::ShowMoveCount(moves as usize)]
                        } else {
                            Seq::empty()
                        }) + seq![
                            Effect::ShowSolved(
                                notice_for(
                                    all_uniform(vials),
                                    old(self).game().least_moves() as int,
                                    moves,
                                ),
                            ),
                            Effect::Repaint,
                        ]
                    },
                },
                Msg::NewPuzzle => {
                    &&& final(self).game().dealt_vials() == final(self).game().vials()
                    &&& shuffled(final(self).game().vials(), C as int)
                    &&& final(self).game().generator().shuffles().last().0 == colour_buffer(
                        C as int,
                        N as int,
                    )
                    &&& dealt(
                        final(self).game().vials(),
                        final(self).game().generator().shuffles().last().1,
                        C as int,
                    )
                    &&& old(self).game().deals_made() < final(self).game().deals_made()
                        <= old(self).game().deals_made() + usize::MAX + 1
                    &&& match solution(final(self).game().vials(), C as int) {
                        Some(k) => final(self).game().least_moves() == k,
                        None => final(self).game().least_moves() == old(self).game().least_moves()
                            && final(self).game().deals_made() == old(self).game().deals_made()
                            + usize::MAX + 1,
                    }
                    &&& final(self).selected() is None
                    &&& final(self).moves_made() == 0
                    &&& effects@ == seq![
                        Effect::Repaint,
                        Effect::ShowSolved(SolvedNotice::Hidden),
                        Effect::ShowMoveCount(0),
                        Effect::ShowMinMoves(final(self).game().least_moves()),
                    ]
                },
                Msg::Reset => {
                    &&& final(self).game().vials() == old(self).game().dealt_vials()
                    &&& final(self).game().dealt_vials() == old(self).game().dealt_vials()
                    &&& final(self).game().least_moves() == old(self).game().least_moves()
                    &&& final(self).game().deals_made() == old(self).game().deals_made()
                    &&& final(self).selected() is None
                    &&& final(self).moves_made() == 0
                    &&& effects@ == seq![
                        Effect::Repaint,
                        Effect::ShowSolved(SolvedNotice::Hidden),
                        Effect::ShowMoveCount(0),
                    ]
                },
            },
    {
        let mut effects: Vec<Effect> = Vec::new();
        match msg {
            Msg::Select(idx) => match self.active_index {
                None => {
                    self.active_index = Some(idx);
                    effects.push(Effect::HighlightVial(idx));
                },
                Some(src) => {
                    if self.puzzle.pour(src, idx) {
                        self.move_count += 1;
                        effects.push(Effect::ShowMoveCount(self.move_count));
                    }
                    let solved = self.puzzle.is_solved();
                    effects.push(
                        Effect::ShowSolved(
                            solved_notice(solved, self.puzzle.min_moves(), self.move_count),
                        ),
                    );
                    self.active_index = None;
                    effects.push(Effect::Repaint);
                },
            },
            Msg::NewPuzzle => {
                self.puzzle.regenerate();
                self.active_index = None;
                effects.push(Effect::Repaint);
                self.move_count = 0;
                effects.push(Effect::ShowSolved(SolvedNotice::Hidden));
                effects.push(Effect::ShowMoveCount(self.move_count));
                effects.push(Effect::ShowMinMoves(self.puzzle.min_moves()));
            },
            Msg::Reset => {
                self.puzzle.reset();
                self.active_index = None;
                effects.push(Effect::Repaint);
                self.move_count = 0;
                effects.push(Effect::ShowSolved(SolvedNotice::Hidden));
                effects.push(Effect::ShowMoveCount(self.move_count));
            },
        }
        effects
    }
}

} // verus!
