use rand::rngs::StdRng;
use rand::SeedableRng;
use water_sort_core::puzzle::Puzzle;
use water_sort_core::ui::puzzle_display::{
    colour_map, solved_notice, Effect, Msg, Session, SolvedNotice, BLUE, EMPTY_COLOUR, GREEN, PINK,
    VERMILION,
};

fn cells(p: &Puzzle) -> Vec<Vec<u8>> {
    (0..6).map(|i| (0..5).map(|j| p.get(i).get(j)).collect()).collect()
}

#[test]
fn colour_map_names_each_colour() {
    assert_eq!(colour_map(0), EMPTY_COLOUR);
    assert_eq!(colour_map(1), BLUE);
    assert_eq!(colour_map(2), VERMILION);
    assert_eq!(colour_map(3), GREEN);
    assert_eq!(colour_map(4), PINK);
    assert_eq!(colour_map(9), EMPTY_COLOUR);
    assert_eq!(BLUE, "#0072B2");
}

#[test]
fn solved_notice_compares_with_min_moves() {
    assert_eq!(solved_notice(false, 3, 7), SolvedNotice::Hidden);
    assert_eq!(solved_notice(true, 3, 3), SolvedNotice::Solved);
    assert_eq!(solved_notice(true, 3, 2), SolvedNotice::Solved);
    assert_eq!(solved_notice(true, 3, 4), SolvedNotice::SolvedWithSpareMoves);
}

#[test]
fn session_select_then_pour() {
    let mut s = Session::new(Puzzle::new(StdRng::seed_from_u64(9)));
    let before = cells(s.puzzle());
    assert_eq!(s.handle(Msg::Select(0)), vec![Effect::HighlightVial(0)]);
    assert_eq!(s.active_index(), Some(0));
    let effects = s.handle(Msg::Select(4));
    assert_eq!(
        effects,
        vec![
            Effect::ShowMoveCount(1),
            Effect::ShowSolved(SolvedNotice::Hidden),
            Effect::Repaint
        ]
    );
    assert_eq!(s.move_count(), 1);
    assert_eq!(s.active_index(), None);
    assert_ne!(cells(s.puzzle()), before);
}

#[test]
fn session_select_same_vial_does_not_move() {
    let mut s = Session::new(Puzzle::new(StdRng::seed_from_u64(10)));
    s.handle(Msg::Select(2));
    let effects = s.handle(Msg::Select(2));
    assert_eq!(
        effects,
        vec![Effect::ShowSolved(SolvedNotice::Hidden), Effect::Repaint]
    );
    assert_eq!(s.move_count(), 0);
}

#[test]
fn session_reset_and_new_puzzle() {
    let mut s = Session::new(Puzzle::new(StdRng::seed_from_u64(12)));
    let dealt = cells(s.puzzle());
    s.handle(Msg::Select(1));
    s.handle(Msg::Select(5));
    assert_eq!(
        s.handle(Msg::Reset),
        vec![
            Effect::Repaint,
            Effect::ShowSolved(SolvedNotice::Hidden),
            Effect::ShowMoveCount(0)
        ]
    );
    assert_eq!(cells(s.puzzle()), dealt);
    assert_eq!(s.move_count(), 0);
    let effects = s.handle(Msg::NewPuzzle);
    assert_eq!(
        effects,
        vec![
            Effect::Repaint,
            Effect::ShowSolved(SolvedNotice::Hidden),
            Effect::ShowMoveCount(0),
            Effect::ShowMinMoves(s.puzzle().min_moves())
        ]
    );
}
