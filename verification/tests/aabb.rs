use prayer::aabb::{total_bounds, Aabb};
use prayer::vec::component_minmax;

#[test]
fn union_covers_points_of_both_operands() {
    let a = Aabb {
        min: [0, 0, 0],
        max: [5, 5, 5],
    };
    let b = Aabb {
        min: [3, 1, 2],
        max: [9, 4, 8],
    };
    let u = a.union(&b);
    assert_eq!(u.min, [0, 0, 0]);
    assert_eq!(u.max, [9, 5, 8]);
    assert!(u.contains(&[1, 1, 1]));
    assert!(u.contains(&[8, 2, 7]));
    assert!(a.contains(&[1, 1, 1]));
    assert!(b.contains(&[8, 2, 7]));
    assert!(!u.contains(&[10, 0, 0]));
}

#[test]
fn split_shares_the_cutting_plane() {
    let a = Aabb {
        min: [0, 0, 0],
        max: [10, 10, 10],
    };
    let (l, r) = a.split_dimension(4, 1);
    assert_eq!(l.min, [0, 0, 0]);
    assert_eq!(l.max, [10, 4, 10]);
    assert_eq!(r.min, [0, 4, 0]);
    assert_eq!(r.max, [10, 10, 10]);
}

#[test]
fn from_points_folds_component_extremes() {
    let pts = vec![[5u32, 1, 9], [2, 8, 9], [7, 3, 0]];
    let b = Aabb::from_points(&pts);
    assert_eq!(b.min, [2, 1, 0]);
    assert_eq!(b.max, [7, 8, 9]);
    let empty: Vec<[u32; 3]> = Vec::new();
    let z = Aabb::from_points(&empty);
    assert_eq!(z.min, [0, 0, 0]);
    assert_eq!(z.max, [0, 0, 0]);
}

#[test]
fn total_bounds_unions_every_box() {
    let boxes = vec![
        Aabb {
            min: [0, 5, 0],
            max: [2, 9, 1],
        },
        Aabb {
            min: [1, 0, 3],
            max: [4, 2, 7],
        },
    ];
    let t = total_bounds(&boxes);
    assert_eq!(t.min, [0, 0, 0]);
    assert_eq!(t.max, [4, 9, 7]);
}

#[test]
fn minmax_step_widens_only_the_violated_bound() {
    let (min, max) = component_minmax(([2, 2, 2], [8, 8, 8]), &[9, 1, 5]);
    assert_eq!(min, [2, 1, 2]);
    assert_eq!(max, [9, 8, 8]);
    // A component above the maximum leaves the minimum alone, even when
    // the accumulator is degenerate.
    let (min, max) = component_minmax(([10, 0, 0], [0, 0, 0]), &[5, 0, 0]);
    assert_eq!(min, [10, 0, 0]);
    assert_eq!(max, [5, 0, 0]);
}
