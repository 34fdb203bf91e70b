use glyphs_generator::intersect::are_strokes_linked;

#[test]
fn test_are_strokes_linked_single() {
    assert!(are_strokes_linked(&vec![0], &vec![vec![1]]));
}

#[test]
fn test_are_strokes_linked_pair_connected() {
    assert!(are_strokes_linked(
        &vec![0, 1],
        &vec![vec![1, 1], vec![1, 1]]
    ));
}

#[test]
fn test_are_strokes_linked_pair_disconnected() {
    assert!(!are_strokes_linked(
        &vec![0, 1],
        &vec![vec![1, 0], vec![0, 1]]
    ));
}

#[test]
fn test_are_strokes_linked_group_disconnected() {
    assert!(!are_strokes_linked(
        &vec![0, 1, 2, 3],
        &vec![
            vec![1, 1, 0, 0],
            vec![1, 1, 0, 0],
            vec![0, 0, 1, 1],
            vec![0, 0, 1, 1],
        ]
    ));
}

#[test]
fn test_are_strokes_linked_specific_case() {
    assert!(!are_strokes_linked(
        &vec![0, 3],
        &vec![
            vec![1, 1, 1, 0],
            vec![1, 1, 0, 1],
            vec![1, 0, 1, 1],
            vec![0, 1, 1, 1],
        ]
    ));
}
