use wazelentin::grid_info::{Error, GridInfo};

#[test]
fn test_should_return_grid_info_with_valid_value() {
    let test_input_grid_row = &String::from("2 6\n0 2\nOXOEEEE\nOOOOOEE\nEOOEEEE");
    if let Ok(grid_info) = GridInfo::new(test_input_grid_row) {
        assert_eq!(2, grid_info.row_max);
        assert_eq!(6, grid_info.column_max);
        assert_eq!((0, 2), grid_info.start_pos);
        assert_eq!((2, 1), grid_info.exit_pos);
        let grid_mocked: Vec<Vec<char>> = [
            ['E', 'O', 'O', 'E', 'E', 'E', 'E'].to_vec(),
            ['O', 'O', 'O', 'O', 'O', 'E', 'E'].to_vec(),
            ['O', 'X', 'O', 'E', 'E', 'E', 'E'].to_vec(),
        ]
        .to_vec();
        assert_eq!(grid_mocked, grid_info.grid);
    } else {
        panic!("Expected OK, but got an Error");
    }
}

#[test]
fn test_should_return_error_for_start_position_if_start_sport_start_on_wrong_case() {
    let test_input_grid_row = &String::from("2 6\n0 2\nEXEEEEE\nOOOOOEE\nEOOEEEE");
    if let Err(grid_error) = GridInfo::new(test_input_grid_row) {
        assert_eq!(Error::StartPosOnBlockedCase, grid_error);
    } else {
        panic!("Expected an error, but got Ok");
    }
}

#[test]
fn test_should_return_error_wrong_or_missing_for_row_with_missing_value() {
    let test_input_grid_row = &String::from("6\n0 2\nOXOEEEE\nOOOOOEE\nEOOEEEE");
    if let Err(grid_error) = GridInfo::new(test_input_grid_row) {
        assert_eq!(Error::MissingRowColumnMax, grid_error);
    } else {
        panic!("Expected an error, but got Ok");
    }
}

#[test]
fn test_should_return_error_wrong_or_missing_for_row_with_addidional_value() {
    let test_input_grid_row = &String::from("6 6 6\n0 2\nOXOEEEE\nOOOOOEE\nEOOEEEE");
    if let Err(grid_error) = GridInfo::new(test_input_grid_row) {
        assert_eq!(Error::MissingRowColumnMax, grid_error);
    } else {
        panic!("Expected an error, but got Ok");
    }
}

#[test]
fn test_should_return_error_cast_for_row_with_incorrect_value() {
    let test_input_grid_row = &String::from("6 r\n0 2\nOXOEEEE\nOOOOOEE\nEOOEEEE");
    if let Err(grid_error) = GridInfo::new(test_input_grid_row) {
        assert_eq!(Error::CastForRowColumnMax, grid_error);
    } else {
        panic!("Expected an error, but got Ok");
    }
}

#[test]
fn test_should_return_error_wrong_or_missing_for_start_pos_with_missing_value() {
    let test_input_grid_row = &String::from("6 2\n2\nOXOEEEE\nOOOOOEE\nEOOEEEE");
    if let Err(grid_error) = GridInfo::new(test_input_grid_row) {
        assert_eq!(Error::MissingStartPos, grid_error);
    } else {
        panic!("Expected an error, but got Ok");
    }
}

#[test]
fn test_should_return_error_wrong_or_missing_for_start_pos_with_additional_value() {
    let test_input_grid_row = &String::from("6 2\n2 2 2\nOXOEEEE\nOOOOOEE\nEOOEEEE");
    if let Err(grid_error) = GridInfo::new(test_input_grid_row) {
        assert_eq!(Error::MissingStartPos, grid_error);
    } else {
        panic!("Expected an error, but got Ok");
    }
}

#[test]
fn test_should_return_error_cast_for_start_pos_with_incorrect_value() {
    let test_input_grid_row = &String::from("6 2\n0 p\nOXOEEEE\nOOOOOEE\nEOOEEEE");
    if let Err(grid_error) = GridInfo::new(test_input_grid_row) {
        assert_eq!(Error::CastForStartPos, grid_error);
    } else {
        panic!("Expected an error, but got Ok");
    }
}

#[test]
fn test_should_return_error_cast_for_doing_shit() {
    let test_input_grid_row = &String::from("6 22OXOEEEE\nOOOOOEE\nEOOEEEE");
    if let Err(grid_error) = GridInfo::new(test_input_grid_row) {
        assert_eq!(Error::CastForRowColumnMax, grid_error);
    } else {
        panic!("Expected an error, but got Ok");
    }
}

#[test]
fn test_should_return_error_cast_for_doing_shit_again() {
    let test_input_grid_row = &String::from("6 2\n2O XOEEEE\nOOOOOEE\nEOOEEEE");
    if let Err(grid_error) = GridInfo::new(test_input_grid_row) {
        assert_eq!(Error::CastForStartPos, grid_error);
    } else {
        panic!("Expected an error, but got Ok");
    }
}

#[test]
fn test_should_return_incoherence_error_for_start_pos_superior_to_row_or_column() {
    let test_input_grid_row = &String::from("6 2\n6 3\nXOEEEE\nOOOOOEE\nEOOEEEE");
    if let Err(grid_error) = GridInfo::new(test_input_grid_row) {
        assert_eq!(Error::IncoherentStartPos, grid_error);
    } else {
        panic!("Expected an error, but got Ok");
    }
}

#[test]
fn test_should_return_incoherence_error_for_grid_which_does_not_respect_bound() {
    let test_input_grid_row = &String::from("6 2\n6 2\nXOEEEE\nOOOEE\nEOOEEEE");
    if let Err(grid_error) = GridInfo::new(test_input_grid_row) {
        assert_eq!(Error::IncoherentGridSize, grid_error);
    } else {
        panic!("Expected an error, but got Ok");
    }
}

#[test]
fn test_should_return_incoherence_error_for_grid_which_does_not_respect_bound_again() {
    let test_input_grid_row = &String::from("2 6\n0 2\nOXOEEEE\nOOOOOEE\nEOOEEEE\nE\n");
    if let Err(grid_error) = GridInfo::new(test_input_grid_row) {
        assert_eq!(Error::IncoherentGridSize, grid_error);
    } else {
        panic!("Expected an error, but got Ok");
    }
}

#[test]
fn test_should_return_missing_exit_error_for_grid_which_does_not_have_exit() {
    let test_input_grid_row = &String::from("2 6\n0 2\nOOOEEEE\nOOOOOEE\nEOOEEEE");
    if let Err(grid_error) = GridInfo::new(test_input_grid_row) {
        assert_eq!(Error::MissingExit, grid_error);
    } else {
        panic!("Expected an error, but got Ok");
    }
}

#[test]
fn test_should_return_multiple_exist_for_grid_which_have_more_than_one_exit() {
    let test_input_grid_row = &String::from("2 6\n0 2\nOOOEEEE\nOOXXOEE\nEOOEEEE");
    if let Err(grid_error) = GridInfo::new(test_input_grid_row) {
        assert_eq!(Error::TooManyExits, grid_error);
    } else {
        panic!("Expected an error, but got Ok");
    }
}

#[test]
fn test_should_return_error_if_an_unothorized_value_is_present() {
    let test_input_grid_row = &String::from("2 6\n0 2\nOOOAEEE\nOOOOOEE\nEOOEEXE");
    if let Err(grid_error) = GridInfo::new(test_input_grid_row) {
        assert_eq!(Error::UnauthorizedValue, grid_error);
    } else {
        panic!("Expected an error, but got Ok");
    }
}
