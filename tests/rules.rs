use minesweeper::cell::{CellState, CellType};
use minesweeper::coordinates::Coordinates;
use minesweeper::dimensions::Dimensions;
use minesweeper::field::{Field, FieldError};
use minesweeper::minesweeper::{
    check_for_win, flood_fill, process_cell, reset_session, toggle_flag, FlagCount, FlagToggle,
    GameState, GameStates,
};

fn empty_field(width: usize, height: usize) -> Field {
    Field::new(width, height, 40, 0).unwrap()
}

fn at(x: isize, y: isize) -> Coordinates {
    Coordinates::new(x, y)
}

fn put_bomb(field: &mut Field, x: isize, y: isize) {
    field.set_cell_type(&at(x, y), CellType::BOMB);
}

fn bombs(field: &Field) -> usize {
    field.cells.iter().filter(|c| c.0 == CellType::BOMB).count()
}

fn cell(field: &Field, x: isize, y: isize) -> (CellType, CellState) {
    field.get_clone(&at(x, y)).unwrap()
}

#[test]
fn new_field_has_exactly_the_bombs_asked_for() {
    let field = Field::new(9, 9, 40, 10).unwrap();
    assert_eq!(field.cells.len(), 81);
    assert_eq!(bombs(&field), 10);
    assert_eq!(field.bomb_count, 10);
    assert_eq!(field.cell_size, 40);
    assert_eq!(field.dimensions.get_width(), 9);
    assert_eq!(field.dimensions.get_height(), 9);
    for c in field.cells.iter() {
        assert_eq!(c.1, CellState::UNKNOWN);
        if c.0 != CellType::BOMB {
            assert_eq!(c.0, CellType::EMPTY(None));
        }
    }
}

#[test]
fn new_field_nearly_full_of_bombs() {
    let field = Field::new(3, 3, 10, 8).unwrap();
    assert_eq!(bombs(&field), 8);
}

#[test]
fn new_field_without_bombs() {
    let field = empty_field(4, 2);
    assert_eq!(bombs(&field), 0);
    assert_eq!(field.cells.len(), 8);
}

#[test]
fn new_field_rejects_zero_side() {
    assert_eq!(Field::new(0, 3, 40, 0).err(), Some(FieldError::EmptyDimension));
    assert_eq!(Field::new(3, 0, 40, 0).err(), Some(FieldError::EmptyDimension));
}

#[test]
fn new_field_rejects_too_many_bombs() {
    assert_eq!(Field::new(3, 3, 40, 9).err(), Some(FieldError::TooManyBombs));
    assert_eq!(Field::new(1, 1, 40, 1).err(), Some(FieldError::TooManyBombs));
}

#[test]
fn new_field_rejects_too_many_cells() {
    assert_eq!(Field::new(usize::MAX, 2, 40, 0).err(), Some(FieldError::TooManyCells));
    assert_eq!(Field::new(usize::MAX / 2 + 1, 1, 40, 0).err(), Some(FieldError::TooManyCells));
}

#[test]
fn dimensions_and_coordinates_keep_their_values() {
    let d = Dimensions::new(7, 5);
    assert_eq!(d.get_width(), 7);
    assert_eq!(d.get_height(), 5);
    let c = Coordinates::new(-3, 4);
    assert_eq!(c.x_coord, -3);
    assert_eq!(c.y_coord, 4);
}

#[test]
fn get_clone_off_the_field_is_none() {
    let field = empty_field(3, 2);
    assert_eq!(field.get_clone(&at(0, 0)), Some((CellType::EMPTY(None), CellState::UNKNOWN)));
    assert_eq!(field.get_clone(&at(3, 0)), None);
    assert_eq!(field.get_clone(&at(0, 2)), None);
    assert_eq!(field.get_clone(&at(-1, 0)), None);
    assert_eq!(field.get_clone(&at(isize::MIN, isize::MAX)), None);
}

#[test]
fn get_mut_writes_one_cell() {
    let mut field = empty_field(3, 2);
    if let Some(c) = field.get_mut(&at(2, 1)) {
        c.1 = CellState::FLAGGED;
    }
    assert!(field.get_mut(&at(3, 1)).is_none());
    assert_eq!(cell(&field, 2, 1).1, CellState::FLAGGED);
    assert_eq!(field.cells[5].1, CellState::FLAGGED);
    assert_eq!(field.cells.iter().filter(|c| c.1 == CellState::FLAGGED).count(), 1);
}

#[test]
fn setters_address_row_major_cells_and_ignore_off_field() {
    let mut field = empty_field(3, 2);
    field.set_cell_type(&at(1, 1), CellType::BOMB);
    assert_eq!(field.cells[4].0, CellType::BOMB);
    field.set_cell_state(&at(2, 0), CellState::EXPOSED);
    assert_eq!(field.cells[2].1, CellState::EXPOSED);
    let before = field.cells.clone();
    field.set_cell_type(&at(3, 0), CellType::BOMB);
    field.set_cell_state(&at(0, -1), CellState::FLAGGED);
    assert_eq!(field.cells, before);
}

#[test]
fn single_cell_has_no_bomb_neighbors() {
    let field = empty_field(1, 1);
    assert_eq!(field.count_bomb_neighbors(&at(0, 0)), 0);
}

#[test]
fn count_skips_the_center_cell() {
    let mut field = empty_field(3, 3);
    put_bomb(&mut field, 1, 1);
    assert_eq!(field.count_bomb_neighbors(&at(1, 1)), 0);
    assert_eq!(field.count_bomb_neighbors(&at(0, 0)), 1);
    assert_eq!(field.count_bomb_neighbors(&at(2, 1)), 1);
}

#[test]
fn count_all_eight_neighbors() {
    let mut field = empty_field(3, 3);
    for y in 0..3 {
        for x in 0..3 {
            if (x, y) != (1, 1) {
                put_bomb(&mut field, x, y);
            }
        }
    }
    assert_eq!(field.count_bomb_neighbors(&at(1, 1)), 8);
    assert_eq!(field.count_bomb_neighbors(&at(0, 0)), 2);
}

#[test]
fn count_off_the_field_sees_only_cells_on_it() {
    let mut field = empty_field(3, 3);
    put_bomb(&mut field, 0, 0);
    assert_eq!(field.count_bomb_neighbors(&at(-1, -1)), 1);
    assert_eq!(field.count_bomb_neighbors(&at(-2, 0)), 0);
    assert_eq!(field.count_bomb_neighbors(&at(isize::MAX, isize::MIN)), 0);
}

#[test]
fn reveal_three_by_three_single_mine_opens_one_cell() {
    let mut field = empty_field(3, 3);
    put_bomb(&mut field, 1, 1);
    let mut state = GameState::new();
    process_cell(at(0, 0), &mut field, &mut state);
    assert_eq!(cell(&field, 0, 0), (CellType::EMPTY(Some(1)), CellState::EXPOSED));
    let exposed = field.cells.iter().filter(|c| c.1 == CellState::EXPOSED).count();
    assert_eq!(exposed, 1);
    assert_eq!(state.game_state, GameStates::Playing);
}

#[test]
fn reveal_two_cells_without_mines_spreads_and_wins() {
    let mut field = empty_field(2, 1);
    let mut state = GameState::new();
    process_cell(at(0, 0), &mut field, &mut state);
    assert_eq!(cell(&field, 0, 0).1, CellState::EXPOSED);
    assert_eq!(cell(&field, 1, 0).1, CellState::EXPOSED);
    assert!(check_for_win(&mut state, &field));
    assert_eq!(state.game_state, GameStates::GameWon);
}

#[test]
fn flood_fill_stops_at_numbered_cells() {
    let mut field = empty_field(5, 5);
    put_bomb(&mut field, 4, 4);
    let mut state = GameState::new();
    process_cell(at(0, 0), &mut field, &mut state);
    for y in 0..5 {
        for x in 0..5 {
            let c = cell(&field, x, y);
            if (x, y) == (4, 4) {
                assert_eq!(c, (CellType::BOMB, CellState::UNKNOWN));
            } else if x >= 3 && y >= 3 {
                assert_eq!(c, (CellType::EMPTY(Some(1)), CellState::EXPOSED));
            } else {
                assert_eq!(c, (CellType::EMPTY(None), CellState::EXPOSED));
            }
        }
    }
}

#[test]
fn flood_fill_is_walled_by_numbered_cells() {
    let mut field = empty_field(5, 1);
    put_bomb(&mut field, 2, 0);
    flood_fill(&mut field, &at(0, 0));
    assert_eq!(cell(&field, 0, 0), (CellType::EMPTY(None), CellState::EXPOSED));
    assert_eq!(cell(&field, 1, 0), (CellType::EMPTY(Some(1)), CellState::EXPOSED));
    assert_eq!(cell(&field, 2, 0), (CellType::BOMB, CellState::UNKNOWN));
    assert_eq!(cell(&field, 3, 0), (CellType::EMPTY(None), CellState::UNKNOWN));
    assert_eq!(cell(&field, 4, 0), (CellType::EMPTY(None), CellState::UNKNOWN));
}

#[test]
fn flood_fill_does_not_go_diagonally() {
    let mut field = empty_field(3, 3);
    // Flags on the side cells of the corner: the corner's blank region cannot
    // leave it, though the diagonal cell has no bomb around it either.
    field.set_cell_state(&at(1, 0), CellState::FLAGGED);
    field.set_cell_state(&at(0, 1), CellState::FLAGGED);
    flood_fill(&mut field, &at(0, 0));
    assert_eq!(cell(&field, 0, 0).1, CellState::EXPOSED);
    assert_eq!(cell(&field, 1, 1).1, CellState::UNKNOWN);
    assert_eq!(cell(&field, 1, 0).1, CellState::FLAGGED);
    assert_eq!(field.cells.iter().filter(|c| c.1 == CellState::EXPOSED).count(), 1);
}

#[test]
fn reveal_mine_loses_and_changes_no_cell() {
    let mut field = empty_field(3, 3);
    put_bomb(&mut field, 2, 2);
    let before = field.cells.clone();
    let mut state = GameState::new();
    process_cell(at(2, 2), &mut field, &mut state);
    assert_eq!(state.game_state, GameStates::GameOver);
    assert_eq!(field.cells, before);
    process_cell(at(0, 0), &mut field, &mut state);
    assert_eq!(field.cells, before);
    assert!(!check_for_win(&mut state, &field));
    assert_eq!(state.game_state, GameStates::GameOver);
}

#[test]
fn reveal_off_field_or_flagged_does_nothing() {
    let mut field = empty_field(2, 2);
    let mut state = GameState::new();
    let mut flags = FlagCount::new(1);
    process_cell(at(5, 5), &mut field, &mut state);
    assert_eq!(toggle_flag(&at(0, 0), &mut field, &state, &mut flags), FlagToggle::Placed);
    process_cell(at(0, 0), &mut field, &mut state);
    assert_eq!(cell(&field, 0, 0).1, CellState::FLAGGED);
    assert_eq!(field.cells.iter().filter(|c| c.1 == CellState::EXPOSED).count(), 0);
    assert_eq!(toggle_flag(&at(0, 0), &mut field, &state, &mut flags), FlagToggle::Removed);
    process_cell(at(0, 0), &mut field, &mut state);
    assert_eq!(field.cells.iter().filter(|c| c.1 == CellState::EXPOSED).count(), 4);
}

#[test]
fn flag_then_unflag_restores_everything() {
    let mut field = empty_field(3, 3);
    let mut state = GameState::new();
    let mut flags = FlagCount::new(2);
    let before = field.cells.clone();
    assert_eq!(toggle_flag(&at(1, 2), &mut field, &state, &mut flags), FlagToggle::Placed);
    assert_eq!(flags.count, 1);
    assert_eq!(cell(&field, 1, 2).1, CellState::FLAGGED);
    assert_eq!(toggle_flag(&at(1, 2), &mut field, &state, &mut flags), FlagToggle::Removed);
    assert_eq!(flags.count, 2);
    assert_eq!(field.cells, before);
    state.game_state = GameStates::GameWon;
    assert_eq!(toggle_flag(&at(1, 2), &mut field, &state, &mut flags), FlagToggle::Ignored);
    assert_eq!(field.cells, before);
}

#[test]
fn no_flag_left_refuses_and_changes_nothing() {
    let mut field = empty_field(3, 3);
    let state = GameState::new();
    let mut flags = FlagCount::new(1);
    assert_eq!(toggle_flag(&at(0, 0), &mut field, &state, &mut flags), FlagToggle::Placed);
    assert_eq!(flags.count, 0);
    let before = field.cells.clone();
    assert_eq!(toggle_flag(&at(1, 0), &mut field, &state, &mut flags), FlagToggle::NoFlagsLeft);
    assert_eq!(flags.count, 0);
    assert_eq!(field.cells, before);
}

#[test]
fn flag_on_revealed_or_off_field_is_ignored() {
    let mut field = empty_field(2, 1);
    let mut state = GameState::new();
    let mut flags = FlagCount::new(1);
    process_cell(at(0, 0), &mut field, &mut state);
    assert_eq!(toggle_flag(&at(0, 0), &mut field, &state, &mut flags), FlagToggle::Ignored);
    assert_eq!(toggle_flag(&at(-1, 0), &mut field, &state, &mut flags), FlagToggle::Ignored);
    assert_eq!(flags.count, 1);
}

#[test]
fn win_needs_every_bomb_flagged() {
    let mut field = empty_field(3, 3);
    put_bomb(&mut field, 0, 0);
    put_bomb(&mut field, 2, 2);
    let mut state = GameState::new();
    let mut flags = FlagCount::new(2);
    toggle_flag(&at(1, 1), &mut field, &state, &mut flags);
    toggle_flag(&at(0, 0), &mut field, &state, &mut flags);
    assert!(!check_for_win(&mut state, &field));
    assert_eq!(state.game_state, GameStates::Playing);
    assert_eq!(toggle_flag(&at(2, 2), &mut field, &state, &mut flags), FlagToggle::NoFlagsLeft);
    toggle_flag(&at(1, 1), &mut field, &state, &mut flags);
    toggle_flag(&at(2, 2), &mut field, &state, &mut flags);
    assert!(check_for_win(&mut state, &field));
    assert_eq!(state.game_state, GameStates::GameWon);
    assert!(!check_for_win(&mut state, &field));
    assert_eq!(state.game_state, GameStates::GameWon);
}

#[test]
fn reset_session_starts_over() {
    let mut field = Field::new(6, 4, 40, 5).unwrap();
    let mut state = GameState::new();
    let mut flags = FlagCount::new(5);
    toggle_flag(&at(0, 0), &mut field, &state, &mut flags);
    state.game_state = GameStates::GameOver;
    reset_session(&mut field, &mut state, &mut flags);
    assert_eq!(state.game_state, GameStates::Playing);
    assert_eq!(flags.count, 5);
    assert_eq!(flags.refill_count, 5);
    assert_eq!(field.cells.len(), 24);
    assert_eq!(field.dimensions.get_width(), 6);
    assert_eq!(field.dimensions.get_height(), 4);
    assert_eq!(bombs(&field), 5);
    assert!(field.cells.iter().all(|c| c.1 == CellState::UNKNOWN));
}

#[test]
fn field_reset_clears_revealed_cells() {
    let mut field = empty_field(4, 4);
    flood_fill(&mut field, &at(0, 0));
    put_bomb(&mut field, 3, 3);
    field.reset();
    assert_eq!(bombs(&field), 0);
    assert!(field
        .cells
        .iter()
        .all(|c| *c == (CellType::EMPTY(None), CellState::UNKNOWN)));
}

#[test]
fn new_state_and_budget() {
    assert_eq!(GameState::new().game_state, GameStates::Playing);
    let flags = FlagCount::new(10);
    assert_eq!(flags.count, 10);
    assert_eq!(flags.refill_count, 10);
}
