use water_sort_core::puzzle::{pour, Vial};
use water_sort_core::solver::order::{
    av_eq_exec, av_le_exec, compare_states, insert_state, sort_state, Placement,
};
use water_sort_core::solver::{annotate, annotate_all, moves, solve, top_colour_of, AnnotatedVial};

fn hard() -> [Vial<5>; 6] {
    [
        Vial::new([4, 3, 4, 1, 1]),
        Vial::new([2, 1, 2, 3, 4]),
        Vial::new([2, 1, 4, 2, 3]),
        Vial::new([2, 3, 3, 1, 4]),
        Vial::new([0; 5]),
        Vial::new([0; 5]),
    ]
}

#[test]
fn solve_ignores_vial_order() {
    let mut v = hard();
    v.reverse();
    assert_eq!(solve::<5, 6, 4>(v), Some(15));
    let mut v = hard();
    v.swap(0, 4);
    v.swap(1, 3);
    assert_eq!(solve::<5, 6, 4>(v), Some(15));
}

#[test]
fn solve_gives_zero_exactly_for_sorted_vials() {
    let solved = [
        Vial::new([0; 5]),
        Vial::new([3; 5]),
        Vial::new([1; 5]),
        Vial::new([0; 5]),
        Vial::new([4; 5]),
        Vial::new([2; 5]),
    ];
    assert_eq!(solve::<5, 6, 4>(solved), Some(0));
    let almost = [
        Vial::new([0; 5]),
        Vial::new([3; 5]),
        Vial::new([1, 1, 1, 1, 2]),
        Vial::new([0; 5]),
        Vial::new([4; 5]),
        Vial::new([1, 2, 2, 2, 2]),
    ];
    assert_eq!(solve::<5, 6, 4>(almost), Some(3));
}

#[test]
fn solve_reports_no_solution() {
    // Two full vials of two colours each, with no room to move anything.
    let stuck = [Vial::new([1, 2]), Vial::new([2, 1])];
    assert_eq!(solve::<2, 2, 2>(stuck), None);
}

#[test]
fn annotate_all_annotates_each_vial() {
    let v = hard();
    let a = annotate_all(v);
    for i in 0..6 {
        assert_eq!(a[i], annotate(v[i]));
    }
    assert_eq!(a[0].blocks, 4);
    assert_eq!(a[4].lead_colour, None);
}

#[test]
fn annotate_counts_gaps_as_blocks() {
    let v = Vial::new([0, 1, 0, 1, 1]);
    assert_eq!(annotate(v), AnnotatedVial::new(v, 3, Some(1)));
    assert_eq!(top_colour_of(&v), Some(1));
    assert_eq!(top_colour_of(&Vial::new([0u8; 3])), None);
}

#[test]
fn sort_state_orders_like_derived_ord() {
    let mut a = annotate_all(hard());
    let mut b = a;
    sort_state(&mut a);
    b.sort();
    assert_eq!(a, b);
    for i in 0..5 {
        assert!(av_le_exec(&a[i], &a[i + 1]));
    }
}

#[test]
fn order_compares_cells_then_blocks_then_top() {
    let v = Vial::new([0, 1, 2]);
    let w = Vial::new([0, 2, 1]);
    let a = AnnotatedVial::new(v, 2, Some(1));
    let b = AnnotatedVial::new(w, 2, Some(2));
    assert!(av_le_exec(&a, &b));
    assert!(!av_le_exec(&b, &a));
    let c = AnnotatedVial::new(v, 3, Some(1));
    assert!(av_le_exec(&a, &c));
    assert!(!av_le_exec(&c, &a));
    let d = AnnotatedVial::new(v, 2, None);
    assert!(av_le_exec(&d, &a));
    assert!(!av_le_exec(&a, &d));
    assert!(av_eq_exec(&a, &a));
    assert!(!av_eq_exec(&a, &c));
}

#[test]
fn moves_from_a_small_state() {
    let mut s = annotate_all([Vial::new([0, 1, 1]), Vial::new([0, 0, 0]), Vial::new([2, 2, 1])]);
    sort_state(&mut s);
    let ms = moves(&s);
    // The single block of colour 1 is never moved into the empty vial; the
    // top of the full vial goes into the empty vial (keeping the block
    // count), and nothing can go onto the full vial.
    assert_eq!(ms.len(), 1);
    let (p, lowers) = ms[0];
    assert!(!lowers);
    let mut expected = annotate_all([Vial::new([0, 1, 1]), Vial::new([0, 2, 2]), Vial::new([0, 0, 1])]);
    expected[1].blocks = 1;
    expected[2].blocks = 1;
    sort_state(&mut expected);
    assert_eq!(p, expected);
}

#[test]
fn moves_merge_equal_colours() {
    let mut s = annotate_all([Vial::new([0, 1, 2]), Vial::new([0, 1, 1]), Vial::new([0, 0, 0])]);
    sort_state(&mut s);
    let ms = moves(&s);
    assert!(ms.iter().any(|(_, lowers)| *lowers));
    for (p, lowers) in ms.iter() {
        let before: usize = s.iter().map(|a| a.blocks).sum();
        let after: usize = p.iter().map(|a| a.blocks).sum();
        if *lowers {
            assert_eq!(after + 1, before);
        } else {
            assert_eq!(after, before);
        }
    }
}

#[test]
fn solve_needs_at_least_the_lowering_moves() {
    // 4 + 5 + 5 + 4 blocks must come down to one per colour.
    let blocks: usize = annotate_all(hard()).iter().map(|a| a.blocks).sum();
    assert_eq!(blocks, 18);
    let steps = solve::<5, 6, 4>(hard()).unwrap();
    assert!(steps >= blocks - 4);
    assert_eq!(steps, 15);
}

#[test]
fn moves_keep_annotations_exact() {
    let mut s = annotate_all(hard());
    sort_state(&mut s);
    for (p, _) in moves(&s).iter() {
        for a in p.iter() {
            assert_eq!(*a, annotate(a.vial));
        }
    }
}

fn play(vials: &mut [Vial<5>; 6], pours: &[(usize, usize)]) {
    for &(src, dst) in pours {
        let mut a = vials[src];
        let mut b = vials[dst];
        assert!(pour(&mut a, &mut b));
        vials[src] = a;
        vials[dst] = b;
    }
}

fn all_uniform(vials: &[Vial<5>; 6]) -> bool {
    vials.iter().all(|v| v.iter().all(|c| *c == v.get(0)))
}

#[test]
fn least_moves_can_be_played() {
    let mut vials = [
        Vial::new([0, 4, 4, 4, 3]),
        Vial::new([0, 1, 1, 1, 1]),
        Vial::new([3, 3, 4, 3, 3]),
        Vial::new([0, 0, 0, 1, 4]),
        Vial::new([2, 2, 2, 2, 2]),
        Vial::new([0, 0, 0, 0, 0]),
    ];
    assert_eq!(solve::<5, 6, 4>(vials), Some(5));
    let pours = [(3, 1), (0, 3), (2, 0), (2, 3), (2, 0)];
    play(&mut vials, &pours[..4]);
    assert!(!all_uniform(&vials));
    play(&mut vials, &pours[4..]);
    assert!(all_uniform(&vials));
}

#[test]
fn insert_state_keeps_column_ascending() {
    let a = annotate_all(hard());
    let mut b = a;
    b.swap(0, 1);
    let mut col = Vec::new();
    assert!(insert_state(&mut col, a));
    assert!(insert_state(&mut col, b));
    assert!(!insert_state(&mut col, a));
    assert!(!insert_state(&mut col, b));
    assert_eq!(col.len(), 2);
    assert_eq!(col[0], b);
    assert_eq!(col[1], a);
    assert!(matches!(compare_states(&b, &a), Placement::Before));
    assert!(matches!(compare_states(&a, &b), Placement::After));
    assert!(matches!(compare_states(&a, &a), Placement::Same));
}

#[test]
fn each_move_is_a_pour_annotated_afresh() {
    let mut s = annotate_all(hard());
    sort_state(&mut s);
    let ms = moves(&s);
    assert!(!ms.is_empty());
    for (p, _) in ms.iter() {
        let mut found = false;
        for i in 0..6 {
            for j in 0..6 {
                if i == j {
                    continue;
                }
                let mut w = [s[0].vial, s[1].vial, s[2].vial, s[3].vial, s[4].vial, s[5].vial];
                let mut a = w[i];
                let mut b = w[j];
                pour(&mut a, &mut b);
                w[i] = a;
                w[j] = b;
                let mut q = annotate_all(w);
                sort_state(&mut q);
                if q == *p {
                    found = true;
                }
            }
        }
        assert!(found);
    }
}

#[test]
fn solve_ends_when_moves_only_go_round() {
    // The only move puts the top colour back and forth between the two
    // vials, which gives the same state each time: nothing new is reached.
    let circling = [Vial::new([0, 1]), Vial::new([2, 1])];
    assert_eq!(solve::<2, 2, 2>(circling), None);
}
