use cpl_rust::misc::{adjacent_grids, adjacent_grids_4, adjacent_grids_8};

#[test]
fn test_adjacent_grids_out_of_bounds() {
    assert!(adjacent_grids(1, 0, 1, 1, &[(0, 1), (1, 0)]).is_empty());
    assert!(adjacent_grids(0, 1, 1, 1, &[(0, 1), (1, 0)]).is_empty());
    assert!(adjacent_grids(1, 1, 1, 1, &[(0, 1), (1, 0)]).is_empty());
}

#[test]
fn test_adjacent_grids_4_corners() {
    for (result, expected) in [
        (adjacent_grids_4(0, 0, 3, 4), vec![(0, 1), (1, 0)]),
        (adjacent_grids_4(0, 3, 3, 4), vec![(1, 3), (0, 2)]),
        (adjacent_grids_4(2, 3, 3, 4), vec![(2, 2), (1, 3)]),
        (adjacent_grids_4(2, 0, 3, 4), vec![(2, 1), (1, 0)]),
    ]
    .iter_mut()
    {
        result.sort_unstable();
        expected.sort_unstable();
        assert_eq!(result, expected);
    }

    assert!(adjacent_grids_4(3, 5, 3, 4).is_empty());
}

#[test]
fn test_adjacent_grids_8_corners() {
    for (result, expected) in [
        (adjacent_grids_8(0, 0, 3, 4), vec![(0, 1), (1, 1), (1, 0)]),
        (adjacent_grids_8(0, 3, 3, 4), vec![(1, 3), (1, 2), (0, 2)]),
        (adjacent_grids_8(2, 3, 3, 4), vec![(2, 2), (1, 2), (1, 3)]),
        (adjacent_grids_8(2, 0, 3, 4), vec![(2, 1), (1, 0), (1, 1)]),
    ]
    .iter_mut()
    {
        result.sort_unstable();
        expected.sort_unstable();
        assert_eq!(result, expected);
    }
}
