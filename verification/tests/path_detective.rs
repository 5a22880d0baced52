use wazelentin::grid_info::GridInfo;
use wazelentin::path_detective::PathDetective;

#[test]
fn test_pos_for_second_case_on_first_row() {
    let grid_info = GridInfo {
        start_pos: (0, 2),
        exit_pos: (usize::MAX, usize::MAX),
        row_max: 2,
        column_max: 6,
        grid: [
            ['E', 'O', 'O', 'E', 'E', 'E', 'E'].to_vec(),
            ['O', 'O', 'O', 'O', 'O', 'E', 'E'].to_vec(),
            ['O', 'O', 'O', 'E', 'E', 'E', 'E'].to_vec(),
        ]
        .to_vec(),
    };
    let wazelentin = PathDetective { grid_info, sender: None };
    let graph_cases = wazelentin.fill_graph();
    assert!(graph_cases.connected_case(0, 2).is_some());
}

#[test]
fn test_connected_case() {
    let mut grid_info = GridInfo {
        start_pos: (0, 2),
        exit_pos: (usize::MAX, usize::MAX),
        row_max: 2,
        column_max: 6,
        grid: [
            ['E', 'O', 'O', 'E', 'E', 'E', 'E'].to_vec(),
            ['O', 'O', 'O', 'O', 'O', 'E', 'E'].to_vec(),
            ['O', 'O', 'O', 'E', 'E', 'E', 'E'].to_vec(),
        ]
        .to_vec(),
    };
    grid_info.grid.reverse();
    let wazelentin = PathDetective { grid_info, sender: None };
    let graph_cases = wazelentin.fill_graph();
    assert_eq!(*graph_cases.connected_case(0, 0).unwrap(), [(0, 1), (1, 1), (1, 0)]);
    assert_eq!(*graph_cases.connected_case(1, 4).unwrap(), [(1, 3)]);
}

#[test]
fn test_find_best_path() {
    let mut grid_info = GridInfo {
        start_pos: (2, 6),
        exit_pos: (0, 0),
        row_max: 5,
        column_max: 6,
        grid: [
            ['E', 'O', 'E', 'O', 'E', 'O', 'E'].to_vec(),
            ['O', 'O', 'O', 'O', 'O', 'O', 'O'].to_vec(),
            ['O', 'O', 'O', 'O', 'O', 'E', 'O'].to_vec(),
            ['O', 'O', 'O', 'O', 'O', 'E', 'O'].to_vec(),
            ['O', 'O', 'O', 'O', 'O', 'E', 'E'].to_vec(),
            ['X', 'O', 'O', 'E', 'E', 'O', 'O'].to_vec(),
        ]
        .to_vec(),
    };
    grid_info.grid.reverse();
    let wazelentin = PathDetective { grid_info, sender: None };
    assert_eq!(
        wazelentin.find_and_transmit_shortest_path().unwrap(),
        [(2, 6), (3, 6), (4, 5), (3, 4), (2, 3), (1, 2), (1, 1), (0, 0)]
    );
}
