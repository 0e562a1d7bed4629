use rand::rngs::StdRng;
use rand::SeedableRng;
use water_sort_core::puzzle::{fill_state, pour, shuffle_state, Puzzle, Vial};
use water_sort_core::rng::CountingRng;
use water_sort_core::sim::sim_single;
use water_sort_core::solver::solve;

fn cells<const N: usize>(v: &Vial<N>) -> Vec<u8> {
    v.iter().copied().collect()
}

fn colour_counts(p: &Puzzle) -> [usize; 5] {
    let mut counts = [0usize; 5];
    for i in 0..6 {
        for j in 0..5 {
            counts[p.get(i).get(j) as usize] += 1;
        }
    }
    counts
}

#[test]
fn pour_moves_top_block() {
    let mut src = Vial::new([0, 2, 2, 1, 1]);
    let mut dst = Vial::new([0, 0, 0, 3, 3]);
    assert!(pour(&mut src, &mut dst));
    assert_eq!(cells(&src), vec![0, 0, 0, 1, 1]);
    assert_eq!(cells(&dst), vec![0, 2, 2, 3, 3]);
}

#[test]
fn pour_stops_when_destination_fills() {
    let mut src = Vial::new([1, 1, 1, 1, 2]);
    let mut dst = Vial::new([0, 0, 3, 3, 3]);
    assert!(pour(&mut src, &mut dst));
    assert_eq!(cells(&src), vec![0, 0, 1, 1, 2]);
    assert_eq!(cells(&dst), vec![1, 1, 3, 3, 3]);
}

#[test]
fn pour_into_empty_vial_fills_from_bottom() {
    let mut src = Vial::new([0, 0, 4, 4, 4]);
    let mut dst = Vial::new([0; 5]);
    assert!(pour(&mut src, &mut dst));
    assert_eq!(cells(&src), vec![0; 5]);
    assert_eq!(cells(&dst), vec![0, 0, 4, 4, 4]);
}

#[test]
fn pour_from_empty_vial_changes_nothing() {
    let mut src = Vial::new([0; 5]);
    let mut dst = Vial::new([0, 0, 0, 1, 1]);
    assert!(!pour(&mut src, &mut dst));
    assert_eq!(cells(&src), vec![0; 5]);
    assert_eq!(cells(&dst), vec![0, 0, 0, 1, 1]);
}

#[test]
fn pour_into_full_vial_changes_nothing() {
    let mut src = Vial::new([0, 0, 0, 2, 2]);
    let mut dst = Vial::new([1, 2, 3, 4, 1]);
    assert!(!pour(&mut src, &mut dst));
    assert_eq!(cells(&src), vec![0, 0, 0, 2, 2]);
    assert_eq!(cells(&dst), vec![1, 2, 3, 4, 1]);
}

#[test]
fn pour_keeps_colours() {
    let mut src = Vial::new([0, 3, 3, 3, 1]);
    let mut dst = Vial::new([0, 0, 2, 2, 2]);
    let mut before: Vec<u8> = cells(&src);
    before.extend(cells(&dst));
    before.sort();
    assert!(pour(&mut src, &mut dst));
    let mut after: Vec<u8> = cells(&src);
    after.extend(cells(&dst));
    after.sort();
    assert_eq!(before, after);
    assert_eq!(cells(&src), vec![0, 0, 0, 3, 1]);
    assert_eq!(cells(&dst), vec![3, 3, 2, 2, 2]);
}

#[test]
fn vial_get_and_iter() {
    let v = Vial::new([0, 0, 7, 8, 9]);
    assert_eq!(v.get(0), 0);
    assert_eq!(v.get(3), 8);
    assert_eq!(cells(&v), vec![0, 0, 7, 8, 9]);
}

#[test]
fn fill_state_deals_buffer() {
    let mut state = [Vial::new([9; 3]); 4];
    let buf = vec![1, 2, 3, 4, 5, 6];
    fill_state::<3, 4, 2>(&mut state, &buf);
    assert_eq!(cells(&state[0]), vec![1, 2, 3]);
    assert_eq!(cells(&state[1]), vec![4, 5, 6]);
    assert_eq!(cells(&state[2]), vec![0, 0, 0]);
    assert_eq!(cells(&state[3]), vec![0, 0, 0]);
}

#[test]
fn shuffle_state_deals_each_colour_n_times() {
    let mut rng = CountingRng::new(StdRng::seed_from_u64(7));
    let mut state = [Vial::new([9; 5]); 6];
    shuffle_state::<5, 6, 4>(&mut state, &mut rng);
    let mut counts = [0usize; 5];
    for v in state.iter() {
        for c in cells(v) {
            counts[c as usize] += 1;
        }
    }
    assert_eq!(counts, [10, 5, 5, 5, 5]);
    assert_eq!(cells(&state[4]), vec![0; 5]);
    assert_eq!(cells(&state[5]), vec![0; 5]);
    for v in state.iter().take(4) {
        assert!(cells(v).iter().all(|c| *c != 0));
    }
}

#[test]
fn new_puzzle_is_dealt_and_solved_by_the_solver() {
    let puzzle = Puzzle::new(StdRng::seed_from_u64(42));
    assert_eq!(colour_counts(&puzzle), [10, 5, 5, 5, 5]);
    let vials = [
        *puzzle.get(0),
        *puzzle.get(1),
        *puzzle.get(2),
        *puzzle.get(3),
        *puzzle.get(4),
        *puzzle.get(5),
    ];
    assert_eq!(solve::<5, 6, 4>(vials), Some(puzzle.min_moves()));
}

#[test]
fn puzzle_pour_reset_and_solved() {
    let mut puzzle = Puzzle::new(StdRng::seed_from_u64(3));
    let dealt: Vec<Vec<u8>> = (0..6).map(|i| cells(puzzle.get(i))).collect();
    assert!(!puzzle.pour(2, 2));
    assert!(!puzzle.pour(0, 6));
    assert!(!puzzle.pour(6, 0));
    assert!(puzzle.pour(0, 4));
    assert_ne!(cells(puzzle.get(0)), dealt[0]);
    assert_eq!(colour_counts(&puzzle), [10, 5, 5, 5, 5]);
    let steps = puzzle.min_moves();
    puzzle.reset();
    let after: Vec<Vec<u8>> = (0..6).map(|i| cells(puzzle.get(i))).collect();
    assert_eq!(after, dealt);
    assert_eq!(puzzle.min_moves(), steps);
}

#[test]
fn regenerate_deals_again() {
    let mut puzzle = Puzzle::new(StdRng::seed_from_u64(11));
    puzzle.regenerate();
    assert_eq!(colour_counts(&puzzle), [10, 5, 5, 5, 5]);
    assert!(puzzle.min_moves() > 0);
    assert!(!puzzle.is_solved());
}

#[test]
fn is_solved_by_uniform_vials() {
    let mut puzzle = Puzzle::new(StdRng::seed_from_u64(5));
    assert!(!puzzle.is_solved());
    let mut guard = 0;
    while !puzzle.is_solved() && guard < 10_000 {
        let mut moved = false;
        for s in 0..6 {
            for d in 0..6 {
                if !moved && s != d {
                    let top = (0..5).map(|j| puzzle.get(s).get(j)).find(|c| *c != 0);
                    let dst_top = (0..5).map(|j| puzzle.get(d).get(j)).find(|c| *c != 0);
                    if top.is_some() && dst_top == top && puzzle.pour(s, d) {
                        moved = true;
                    }
                }
            }
        }
        if !moved {
            break;
        }
        guard += 1;
    }
    let uniform = (0..6).all(|i| (0..5).all(|j| puzzle.get(i).get(j) == puzzle.get(i).get(0)));
    assert_eq!(puzzle.is_solved(), uniform);
}

#[test]
fn shuffle_state_does_not_deal_in_order() {
    let mut rng = CountingRng::new(StdRng::seed_from_u64(1));
    let mut state = [Vial::new([0; 5]); 6];
    shuffle_state::<5, 6, 4>(&mut state, &mut rng);
    let in_order = (0..4).all(|i| cells(&state[i]) == vec![(i + 1) as u8; 5]);
    assert!(!in_order);
}

#[test]
fn pours_keep_vials_settled() {
    let settled = |v: &Vial<5>| {
        let c = cells(v);
        (0..5).all(|i| (i..5).all(|j| c[i] == 0 || c[j] != 0))
    };
    let mut a = Vial::new([0, 1, 2, 2, 3]);
    let mut b = Vial::new([0, 0, 0, 0, 2]);
    let mut c = Vial::new([0; 5]);
    assert!(pour(&mut a, &mut b));
    assert!(pour(&mut b, &mut c));
    assert!(pour(&mut a, &mut c));
    for v in [a, b, c].iter() {
        assert!(settled(v));
    }
    assert_eq!(cells(&a), vec![0, 0, 0, 0, 3]);
    assert_eq!(cells(&b), vec![0, 0, 0, 0, 2]);
    assert_eq!(cells(&c), vec![0, 0, 2, 2, 1]);
}

#[test]
fn sim_single_deals_and_solves() {
    let mut rng = CountingRng::new(StdRng::seed_from_u64(21));
    let mut seen_some = false;
    for _ in 0..20 {
        if let Some(k) = sim_single::<5, 6, 4>(&mut rng) {
            assert!(k >= 1);
            seen_some = true;
        }
    }
    assert!(seen_some);
    let mut empty = CountingRng::new(StdRng::seed_from_u64(2));
    assert_eq!(sim_single::<5, 6, 0>(&mut empty), Some(0));
}
