use mines::{Action, Button, Flag, Game, Input, Layout, Minefield};

fn game(rows: usize, cols: usize, percent: u8, mines: Vec<usize>) -> Game {
    let mut field = Minefield::new(rows, cols, percent);
    field.reset_with(mines);
    // tiles of ten by ten, one apart, the first at (5, 5)
    let layout = Layout::framed(rows, cols, (10, 10), 1).unwrap();
    Game::new(field, layout)
}

fn press(x: i32, y: i32, button: Button) -> Input {
    Input::Press { x, y, button }
}

#[test]
fn quit_stops_the_game_and_changes_nothing() {
    let mut game = game(2, 2, 25, vec![0]);
    assert_eq!(game.handle(Input::Quit), Action::Stop);
    assert!(!game.game_won());
    for i in 0..4 {
        assert!(game.minefield().tile_is_hidden(i));
    }
}

#[test]
fn other_input_changes_nothing() {
    let mut game = game(2, 2, 25, vec![0]);
    assert_eq!(game.handle(Input::Other), Action::Continue);
    for i in 0..4 {
        assert!(game.minefield().tile_is_hidden(i));
        assert_eq!(game.minefield().get_tile_flag(i), None);
    }
}

#[test]
fn left_button_uncovers_the_tile_under_the_pointer() {
    let mut game = game(2, 2, 25, vec![0]);
    // tile 3 is row 1 of column 1: its corner is at (16, 16)
    assert_eq!(game.handle(press(16, 16, Button::Left)), Action::Continue);
    assert!(!game.minefield().tile_is_hidden(3));
    assert!(game.minefield().tile_is_hidden(0));
    assert!(game.minefield().tile_is_hidden(1));
    assert!(game.minefield().tile_is_hidden(2));
}

#[test]
fn right_button_marks_the_tile_under_the_pointer() {
    let mut game = game(2, 2, 25, vec![0]);
    assert_eq!(game.handle(press(5, 5, Button::Right)), Action::TellFlags { flagged: 1, mines: 1 });
    assert_eq!(game.minefield().get_tile_flag(0), Some(Flag::Mine));
    assert_eq!(game.handle(press(14, 14, Button::Right)), Action::TellFlags { flagged: 0, mines: 1 });
    assert_eq!(game.minefield().get_tile_flag(0), Some(Flag::Question));
}

#[test]
fn other_buttons_and_presses_off_the_tiles_do_nothing() {
    let mut game = game(2, 2, 25, vec![0]);
    assert_eq!(game.handle(press(5, 5, Button::Other)), Action::Continue);
    assert_eq!(game.handle(press(15, 15, Button::Left)), Action::Continue);
    assert_eq!(game.handle(press(4, 5, Button::Right)), Action::Continue);
    assert_eq!(game.handle(press(27, 27, Button::Left)), Action::Continue);
    for i in 0..4 {
        assert!(game.minefield().tile_is_hidden(i));
        assert_eq!(game.minefield().get_tile_flag(i), None);
    }
}

#[test]
fn a_won_game_is_found_at_the_end_of_a_frame() {
    let mut game = game(2, 2, 25, vec![0]);
    assert!(!game.end_frame());
    game.handle(press(5, 5, Button::Right));
    game.handle(press(5, 16, Button::Left));
    game.handle(press(16, 5, Button::Left));
    assert!(!game.end_frame());
    assert!(!game.game_won());
    game.handle(press(16, 16, Button::Left));
    assert!(!game.game_won());
    assert!(game.end_frame());
    assert!(game.game_won());
}

#[test]
fn a_won_game_stays_won_until_a_new_game() {
    let mut game = game(1, 2, 50, vec![0]);
    game.handle(press(5, 5, Button::Right));
    game.handle(press(16, 5, Button::Left));
    assert!(game.end_frame());
    // the mark on the mine goes: the board is no longer a won one
    game.handle(press(5, 5, Button::Right));
    assert!(!game.end_frame());
    assert!(game.game_won());
    assert_eq!(game.handle(Input::Restart), Action::Continue);
    assert!(!game.game_won());
    assert_eq!(game.minefield().mine_locations().len(), 1);
    assert_eq!(game.minefield().flagged_mine_count(), 0);
    for i in 0..2 {
        assert!(game.minefield().tile_is_hidden(i));
        assert_eq!(game.minefield().get_tile_flag(i), None);
    }
}

#[test]
fn layout_is_kept() {
    let game = game(3, 4, 25, vec![0, 1, 2]);
    assert_eq!(game.layout().rows(), 3);
    assert_eq!(game.layout().cols(), 4);
    assert_eq!(game.layout().window_size(), (54, 43));
}

#[test]
fn left_button_on_a_mine_tells_of_the_mine() {
    // three rows, two columns, the mine under row 2 of column 1
    let mut game = game(3, 2, 17, vec![5]);
    assert_eq!(game.handle(press(16, 27, Button::Left)), Action::TellMine { row: 2, col: 1 });
    for i in 0..6 {
        assert!(!game.minefield().tile_is_hidden(i));
    }
    // a second press on the mine tells of it again and changes nothing
    assert_eq!(game.handle(press(16, 27, Button::Left)), Action::TellMine { row: 2, col: 1 });
    assert!(!game.end_frame());
}

#[test]
fn right_button_on_a_visible_tile_tells_nothing() {
    let mut game = game(2, 2, 25, vec![0]);
    game.handle(press(16, 16, Button::Left));
    assert_eq!(game.handle(press(16, 16, Button::Right)), Action::Continue);
    assert_eq!(game.minefield().get_tile_flag(3), None);
}
