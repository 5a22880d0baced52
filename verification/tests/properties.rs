use std::sync::mpsc;
use wazelentin::grid_info::{Error, GridInfo};
use wazelentin::path_detective::{DistanceField, PathDetective};
use wazelentin::text::parse_usize;

fn chars(s: &str) -> Vec<char> {
    s.chars().collect()
}

#[test]
fn single_cell_grid_yields_single_cell_path() {
    let grid_info = GridInfo::new("0 0\n0 0\nX").unwrap();
    assert_eq!((0, 0), grid_info.start_pos);
    assert_eq!((0, 0), grid_info.exit_pos);
    let wazelentin = PathDetective { grid_info, sender: None };
    assert_eq!(wazelentin.find_and_transmit_shortest_path().unwrap(), [(0, 0)]);
}

#[test]
fn distances_and_path_for_the_reference_grid() {
    let grid_info = GridInfo::new("2 6\n0 2\nOXOEEEE\nOOOOOEE\nEOOEEEE").unwrap();
    let wazelentin = PathDetective { grid_info, sender: None };
    let graph = wazelentin.fill_graph();
    let (field, outcome) = wazelentin.fill_intersection_distance(&graph);
    // the start sits at distance zero, its open neighbors one step out
    assert_eq!(field.distance_of(0, 2), Some(0));
    assert_eq!(field.distance_of(1, 3), Some(1));
    assert_eq!(field.distance_of(1, 2), Some(1));
    // the search stopped on the cell bordering the exit
    let (meet, distance) = outcome.unwrap();
    assert_eq!(meet, (1, 2));
    assert_eq!(distance, 1);
    // the reconstructed path descends one distance step per cell
    let path = wazelentin.find_and_transmit_shortest_path().unwrap();
    assert_eq!(path, [(0, 2), (1, 2), (2, 1)]);
}

#[test]
fn running_the_pipeline_twice_gives_the_same_path() {
    let first = PathDetective {
        grid_info: GridInfo::new("2 6\n0 2\nOXOEEEE\nOOOOOEE\nEOOEEEE").unwrap(),
        sender: None,
    }
    .find_and_transmit_shortest_path()
    .unwrap();
    let second = PathDetective {
        grid_info: GridInfo::new("2 6\n0 2\nOXOEEEE\nOOOOOEE\nEOOEEEE").unwrap(),
        sender: None,
    }
    .find_and_transmit_shortest_path()
    .unwrap();
    assert_eq!(first, second);
}

#[test]
fn the_sink_receives_the_walk_in_order_and_the_start_last() {
    let grid_info = GridInfo::new("2 6\n0 2\nOXOEEEE\nOOOOOEE\nEOOEEEE").unwrap();
    let (sender, receiver) = mpsc::channel::<(usize, usize)>();
    let wazelentin = PathDetective { grid_info, sender: Some(sender) };
    let path = wazelentin.find_and_transmit_shortest_path().unwrap();
    drop(wazelentin);
    let received: Vec<(usize, usize)> = receiver.iter().collect();
    // the walk discovers the path backwards from the exit's neighbor
    assert_eq!(received, [(1, 2), (0, 2)]);
    assert_eq!(*received.last().unwrap(), path[0]);
}

#[test]
fn a_dropped_receiver_does_not_disturb_the_path() {
    let grid_info = GridInfo::new("2 6\n0 2\nOXOEEEE\nOOOOOEE\nEOOEEEE").unwrap();
    let (sender, receiver) = mpsc::channel::<(usize, usize)>();
    drop(receiver);
    let wazelentin = PathDetective { grid_info, sender: Some(sender) };
    assert_eq!(wazelentin.find_and_transmit_shortest_path().unwrap(), [(0, 2), (1, 2), (2, 1)]);
}

#[test]
fn a_blocked_start_is_unreachable() {
    let grid_info = GridInfo {
        start_pos: (0, 1),
        exit_pos: (0, 2),
        row_max: 0,
        column_max: 2,
        grid: [['O', 'E', 'X'].to_vec()].to_vec(),
    };
    let wazelentin = PathDetective { grid_info, sender: None };
    assert_eq!(wazelentin.find_and_transmit_shortest_path(), Err(Error::StartUnreachable));
}

#[test]
fn a_walled_off_exit_gives_no_path() {
    let grid_info = GridInfo {
        start_pos: (0, 0),
        exit_pos: (0, 2),
        row_max: 0,
        column_max: 2,
        grid: [['O', 'E', 'X'].to_vec()].to_vec(),
    };
    let wazelentin = PathDetective { grid_info, sender: None };
    assert_eq!(wazelentin.find_and_transmit_shortest_path(), Err(Error::NoPathFound));
}

#[test]
fn a_blank_distance_field_fails_reconstruction() {
    let grid_info = GridInfo {
        start_pos: (0, 0),
        exit_pos: (0, 1),
        row_max: 0,
        column_max: 1,
        grid: [['O', 'O'].to_vec()].to_vec(),
    };
    let wazelentin = PathDetective { grid_info, sender: None };
    let graph = wazelentin.fill_graph();
    let field = DistanceField { distance: [[None, None].to_vec()].to_vec() };
    assert_eq!(
        wazelentin.find_best_intersection(&graph, &field),
        Err(Error::PathReconstructionFailed)
    );
}

#[test]
fn numbers_parse_as_the_standard_library_reads_them() {
    assert_eq!(parse_usize(&chars("123")), Some(123));
    assert_eq!(parse_usize(&chars("0")), Some(0));
    assert_eq!(parse_usize(&chars("+7")), Some(7));
    assert_eq!(parse_usize(&chars("")), None);
    assert_eq!(parse_usize(&chars("+")), None);
    assert_eq!(parse_usize(&chars("12a")), None);
    assert_eq!(parse_usize(&chars("-3")), None);
    assert_eq!(parse_usize(&chars("99999999999999999999999999")), None);
    assert_eq!(parse_usize(&chars("18446744073709551615")), Some(usize::MAX));
}

#[test]
fn an_oversized_bound_is_a_cast_failure() {
    let input = "99999999999999999999999999 6\n0 2\nOXOEEEE\nOOOOOEE\nEOOEEEE";
    match GridInfo::new(input) {
        Err(e) => assert_eq!(e, Error::CastForRowColumnMax),
        Ok(_) => panic!("Expected an error, but got Ok"),
    }
}

#[test]
fn a_plus_sign_is_accepted_in_the_header() {
    let grid_info = GridInfo::new("2 6\n+0 2\nOXOEEEE\nOOOOOEE\nEOOEEEE").unwrap();
    assert_eq!((0, 2), grid_info.start_pos);
}

#[test]
fn an_empty_description_misses_its_first_line() {
    match GridInfo::new("") {
        Err(e) => assert_eq!(e, Error::MissingRowColumnMax),
        Ok(_) => panic!("Expected an error, but got Ok"),
    }
}

#[test]
fn a_description_without_grid_rows_has_the_wrong_size() {
    match GridInfo::new("2 6\n0 2") {
        Err(e) => assert_eq!(e, Error::IncoherentGridSize),
        Ok(_) => panic!("Expected an error, but got Ok"),
    }
}

#[test]
fn windows_line_endings_are_accepted() {
    let grid_info = GridInfo::new("2 6\r\n0 2\r\nOXOEEEE\r\nOOOOOEE\r\nEOOEEEE").unwrap();
    assert_eq!((2, 1), grid_info.exit_pos);
}

#[test]
fn the_neighbor_lists_never_cross_walls() {
    let grid_info = GridInfo::new("2 6\n0 2\nOXOEEEE\nOOOOOEE\nEOOEEEE").unwrap();
    let wazelentin = PathDetective { grid_info, sender: None };
    let graph = wazelentin.fill_graph();
    // a closed cell has no entry at all
    assert!(graph.connected_case(0, 0).is_none());
    // and no neighbor list mentions one
    for row in 0..3usize {
        for column in 0..7usize {
            if let Some(list) = graph.connected_case(row, column) {
                for &(r, c) in list.iter() {
                    assert!(wazelentin.is_valid_case(r, c));
                }
            }
        }
    }
}

#[test]
fn the_exit_must_be_derived_even_when_the_start_sits_on_it() {
    // the start may stand on the exit cell itself
    let grid_info = GridInfo::new("1 1\n0 0\nOO\nXO").unwrap();
    assert_eq!((0, 0), grid_info.exit_pos);
    assert_eq!((0, 0), grid_info.start_pos);
    let wazelentin = PathDetective { grid_info, sender: None };
    assert_eq!(wazelentin.find_and_transmit_shortest_path().unwrap(), [(0, 0)]);
}
