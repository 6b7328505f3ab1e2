use prayer::kdtree::{
    min_index, partition_dimension, sorted_markers, split_candidates, Marker, State,
};

fn marker(pos: u32, start: bool) -> Marker {
    Marker {
        pos,
        state: if start { State::Start } else { State::End },
    }
}

#[test]
fn markers_sort_by_position_with_start_before_end() {
    let ivs = vec![(5u32, 10u32), (0, 3), (3, 7)];
    let ms = sorted_markers(&ivs);
    assert_eq!(
        ms,
        vec![
            marker(0, true),
            marker(3, true),
            marker(3, false),
            marker(5, true),
            marker(7, false),
            marker(10, false),
        ]
    );
}

#[test]
fn sweep_counts_both_sides_of_every_position() {
    let ivs = vec![(0u32, 10u32), (2, 5), (5, 8)];
    let cands = split_candidates(&ivs);
    let got: Vec<(u32, usize, usize)> = cands.iter().map(|c| (c.pos, c.left, c.right)).collect();
    assert_eq!(
        got,
        vec![(0, 1, 3), (2, 2, 3), (5, 3, 2), (8, 3, 1), (10, 3, 0)]
    );
}

#[test]
fn sweep_collapses_duplicate_positions() {
    let ivs = vec![(1u32, 1u32), (1, 2)];
    let cands = split_candidates(&ivs);
    let got: Vec<(u32, usize, usize)> = cands.iter().map(|c| (c.pos, c.left, c.right)).collect();
    assert_eq!(got, vec![(1, 2, 1), (2, 2, 0)]);
}

#[test]
fn sweep_of_no_extents_is_empty() {
    let ivs: Vec<(u32, u32)> = Vec::new();
    assert!(split_candidates(&ivs).is_empty());
}

#[test]
fn partition_sends_straddlers_to_both_sides() {
    let ivs = vec![(0u32, 10u32), (2, 5), (5, 8), (9, 12)];
    let (left, right) = partition_dimension(&ivs, 5);
    assert_eq!(left, vec![0, 1, 2]);
    assert_eq!(right, vec![0, 2, 3]);
}

#[test]
fn partition_keeps_every_extent_on_some_side() {
    let ivs = vec![(0u32, 4u32), (5, 5), (6, 9)];
    for split in [0u32, 4, 5, 6, 9, 100] {
        let (left, right) = partition_dimension(&ivs, split);
        for i in 0..ivs.len() {
            assert!(left.contains(&i) || right.contains(&i));
        }
    }
}

#[test]
fn min_index_takes_the_first_minimum() {
    assert_eq!(min_index(&Vec::new()), None);
    assert_eq!(min_index(&vec![4u32]), Some(0));
    assert_eq!(min_index(&vec![5u32, 2, 7, 2, 9]), Some(1));
    assert_eq!(min_index(&vec![3u32, 3, 3]), Some(0));
}

#[test]
fn cut_duplicates_exactly_the_straddlers() {
    let ivs = vec![(0u32, 10u32), (2, 5), (5, 8), (9, 12)];
    let (left, right) = partition_dimension(&ivs, 5);
    // Extents 0 and 2 straddle the cut at 5 and appear on both sides.
    assert_eq!(left.len() + right.len(), ivs.len() + 2);
}
