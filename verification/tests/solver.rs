use water_sort_core::puzzle::Vial;
use water_sort_core::solver::{annotate, solve, AnnotatedVial};

#[test]
fn test_solve() {
    let example = [
        Vial::new([1; 5]),
        Vial::new([2; 5]),
        Vial::new([3; 5]),
        Vial::new([4; 5]),
        Vial::new([0; 5]),
        Vial::new([0; 5]),
    ];
    let steps = solve::<5, 6, 4>(example).unwrap();
    assert_eq!(steps, 0);

    let example = [
        Vial::new([0, 0, 1, 1, 1]),
        Vial::new([2; 5]),
        Vial::new([3; 5]),
        Vial::new([4; 5]),
        Vial::new([0; 5]),
        Vial::new([0, 0, 0, 1, 1]),
    ];
    let steps = solve::<5, 6, 4>(example).unwrap();
    assert_eq!(steps, 1);

    let example = [
        Vial::new([0, 4, 4, 4, 3]),
        Vial::new([0, 1, 1, 1, 1]),
        Vial::new([3, 3, 4, 3, 3]),
        Vial::new([0, 0, 0, 1, 4]),
        Vial::new([2, 2, 2, 2, 2]),
        Vial::new([0, 0, 0, 0, 0]),
    ];
    let steps = solve::<5, 6, 4>(example).unwrap();
    assert_eq!(steps, 5);

    let example = [
        Vial::new([4, 3, 4, 1, 1]),
        Vial::new([2, 1, 2, 3, 4]),
        Vial::new([2, 1, 4, 2, 3]),
        Vial::new([2, 3, 3, 1, 4]),
        Vial::new([0; 5]),
        Vial::new([0; 5]),
    ];
    let steps = solve::<5, 6, 4>(example).unwrap();
    assert_eq!(steps, 15);
}

#[test]
fn test_annotate() {
    let example = [
        Vial::new([4, 3, 4, 1, 1]),
        Vial::new([2, 1, 2, 3, 4]),
        Vial::new([2, 1, 4, 2, 3]),
        Vial::new([2, 3, 3, 1, 4]),
        Vial::new([0; 5]),
        Vial::new([0; 5]),
    ];
    assert_eq!(
        annotate(example[0]),
        AnnotatedVial::new(example[0], 4, Some(4))
    );
    assert_eq!(
        annotate(example[1]),
        AnnotatedVial::new(example[1], 5, Some(2))
    );
    assert_eq!(
        annotate(example[2]),
        AnnotatedVial::new(example[2], 5, Some(2))
    );
    assert_eq!(
        annotate(example[3]),
        AnnotatedVial::new(example[3], 4, Some(2))
    );
    assert_eq!(
        annotate(example[4]),
        AnnotatedVial::new(example[4], 0, None)
    );
    assert_eq!(
        annotate(example[5]),
        AnnotatedVial::new(example[5], 0, None)
    );

    let example = [
        Vial::new([1; 5]),
        Vial::new([2; 5]),
        Vial::new([3; 5]),
        Vial::new([4; 5]),
        Vial::new([0; 5]),
        Vial::new([0; 5]),
    ];
    assert_eq!(
        annotate(example[0]),
        AnnotatedVial::new(example[0], 1, Some(1))
    );
    assert_eq!(
        annotate(example[1]),
        AnnotatedVial::new(example[1], 1, Some(2))
    );
    assert_eq!(
        annotate(example[2]),
        AnnotatedVial::new(example[2], 1, Some(3))
    );
    assert_eq!(
        annotate(example[3]),
        AnnotatedVial::new(example[3], 1, Some(4))
    );
    assert_eq!(
        annotate(example[4]),
        AnnotatedVial::new(example[4], 0, None)
    );
    assert_eq!(
        annotate(example[5]),
        AnnotatedVial::new(example[5], 0, None)
    );

    let example = [
        Vial::new([0, 0, 3, 4, 2]),
        Vial::new([4, 4, 4, 1, 4]),
        Vial::new([0, 1, 3, 2, 1]),
        Vial::new([2, 2, 2, 1, 1]),
        Vial::new([0, 0, 3, 3, 3]),
        Vial::new([0; 5]),
    ];
    assert_eq!(
        annotate(example[0]),
        AnnotatedVial::new(example[0], 3, Some(3))
    );
    assert_eq!(
        annotate(example[1]),
        AnnotatedVial::new(example[1], 3, Some(4))
    );
    assert_eq!(
        annotate(example[2]),
        AnnotatedVial::new(example[2], 4, Some(1))
    );
    assert_eq!(
        annotate(example[3]),
        AnnotatedVial::new(example[3], 2, Some(2))
    );
    assert_eq!(
        annotate(example[4]),
        AnnotatedVial::new(example[4], 1, Some(3))
    );
    assert_eq!(
        annotate(example[5]),
        AnnotatedVial::new(example[5], 0, None)
    );
}
