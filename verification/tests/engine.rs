use mines::{Face, Flag, Minefield, TileContent};

fn board(rows: usize, cols: usize, percent: u8, mines: Vec<usize>) -> Minefield {
    let mut field = Minefield::new(rows, cols, percent);
    field.reset_with(mines);
    field
}

fn hidden(field: &Minefield) -> Vec<bool> {
    (0..field.rows() * field.cols()).map(|i| field.tile_is_hidden(i)).collect()
}

fn around(rows: usize, cols: usize, i: usize) -> Vec<usize> {
    let (row, col) = ((i % rows) as i64, (i / rows) as i64);
    let mut found = vec![];
    for dr in -1i64..=1 {
        for dc in -1i64..=1 {
            let (r, c) = (row + dr, col + dc);
            if (dr, dc) != (0, 0) && r >= 0 && r < rows as i64 && c >= 0 && c < cols as i64 {
                found.push(c as usize * rows + r as usize);
            }
        }
    }
    found
}

#[test]
fn new_board_is_hidden_and_unflagged() {
    let field = Minefield::new(4, 5, 20);
    assert_eq!(field.rows(), 4);
    assert_eq!(field.cols(), 5);
    assert_eq!(field.flagged_mine_count(), 0);
    for i in 0..20 {
        assert!(field.tile_is_hidden(i));
        assert_eq!(field.get_tile_flag(i), None);
    }
}

#[test]
fn mine_count_is_the_floor_of_the_percentage() {
    assert_eq!(Minefield::new(16, 30, 20).mine_locations().len(), 96);
    assert_eq!(Minefield::new(3, 3, 50).mine_locations().len(), 4);
    assert_eq!(Minefield::new(7, 1, 99).mine_locations().len(), 6);
    assert_eq!(Minefield::new(1, 1, 99).mine_locations().len(), 0);
    assert_eq!(Minefield::new(10, 10, 1).mine_locations().len(), 1);
}

#[test]
fn random_mines_are_distinct_tiles_of_the_grid() {
    for _ in 0..20 {
        let field = Minefield::new(6, 7, 35);
        let mines = field.mine_locations().clone();
        assert_eq!(mines.len(), 14);
        for (k, m) in mines.iter().enumerate() {
            assert!(*m < 42);
            assert!(!mines[..k].contains(m));
            assert_eq!(field.get_tile_content(*m), TileContent::Mine);
        }
        for i in 0..42 {
            assert_eq!(field.get_tile_content(i) == TileContent::Mine, mines.contains(&i));
        }
    }
}

#[test]
fn danger_counts_the_mines_around_a_tile() {
    for _ in 0..20 {
        let field = Minefield::new(5, 8, 30);
        let mines = field.mine_locations().clone();
        for i in 0..40 {
            if !mines.contains(&i) {
                let count = around(5, 8, i).iter().filter(|j| mines.contains(j)).count();
                assert_eq!(field.get_tile_content(i), TileContent::Danger(count as i32));
            }
        }
    }
}

#[test]
fn danger_counts_on_a_known_board() {
    // column-major, three rows: the mines lie at (row 0, col 0) and (row 1, col 1)
    let field = board(3, 3, 25, vec![0, 4]);
    let expected = [
        TileContent::Mine,
        TileContent::Danger(2),
        TileContent::Danger(1),
        TileContent::Danger(2),
        TileContent::Mine,
        TileContent::Danger(1),
        TileContent::Danger(1),
        TileContent::Danger(1),
        TileContent::Danger(1),
    ];
    for i in 0..9 {
        assert_eq!(field.get_tile_content(i), expected[i]);
    }
}

#[test]
fn linear_index_is_column_major() {
    // two rows, three columns: index 3 is row 1 of column 1
    let field = board(2, 3, 17, vec![5]);
    // the mine at row 1 of column 2 touches columns 1 and 2 only
    assert_eq!(field.get_tile_content(0), TileContent::Danger(0));
    assert_eq!(field.get_tile_content(1), TileContent::Danger(0));
    assert_eq!(field.get_tile_content(2), TileContent::Danger(1));
    assert_eq!(field.get_tile_content(3), TileContent::Danger(1));
    assert_eq!(field.get_tile_content(4), TileContent::Danger(1));
    assert_eq!(field.get_tile_content(5), TileContent::Mine);
}

#[test]
fn no_mines_at_zero_percent() {
    let field = Minefield::new(4, 4, 0);
    assert!(field.mine_locations().is_empty());
    for i in 0..16 {
        assert_eq!(field.get_tile_content(i), TileContent::Danger(0));
    }
}

#[test]
fn every_tile_a_mine_at_hundred_percent() {
    let field = Minefield::new(3, 4, 100);
    assert_eq!(field.mine_locations().len(), 12);
    for i in 0..12 {
        assert_eq!(field.get_tile_content(i), TileContent::Mine);
    }
}

#[test]
fn check_win_gives_the_same_answer_twice() {
    let mut field = board(2, 2, 25, vec![0]);
    assert_eq!(field.check_win(), field.check_win());
    field.flag_tile(0);
    field.uncover_tile(1);
    field.uncover_tile(2);
    field.uncover_tile(3);
    assert!(field.check_win());
    assert!(field.check_win());
}

#[test]
fn uncovering_the_first_tile_of_a_mine_free_board_uncovers_all() {
    let mut field = Minefield::new(9, 13, 0);
    field.uncover_tile(0);
    assert!(hidden(&field).iter().all(|h| !h));
    assert!(field.check_win());
}

#[test]
fn flood_stops_at_numbered_tiles() {
    // one row of six tiles, the mine under the fifth
    let mut field = board(1, 6, 17, vec![4]);
    field.uncover_tile(0);
    assert_eq!(hidden(&field), vec![false, false, false, false, true, true]);
    assert_eq!(field.get_tile_content(3), TileContent::Danger(1));
}

#[test]
fn flood_does_not_pass_through_visible_tiles() {
    let mut field = Minefield::new(1, 3, 0);
    field.uncover_tile(0);
    field.hide_tile(0);
    field.hide_tile(2);
    field.uncover_tile(0);
    assert_eq!(hidden(&field), vec![false, false, true]);
}

#[test]
fn flood_takes_markers_off() {
    let mut field = board(1, 6, 17, vec![5]);
    field.flag_tile(5);
    field.flag_tile(2);
    field.flag_tile(3);
    field.flag_tile(3);
    assert_eq!(field.get_tile_flag(2), Some(Flag::Question));
    assert_eq!(field.get_tile_flag(3), None);
    field.flag_tile(1);
    assert_eq!(field.get_tile_flag(1), Some(Flag::Question));
    field.uncover_tile(0);
    assert_eq!(hidden(&field), vec![false, false, false, false, false, true]);
    for i in 0..5 {
        assert_eq!(field.get_tile_flag(i), None);
    }
    assert_eq!(field.get_tile_flag(5), Some(Flag::Mine));
    assert_eq!(field.flagged_mine_count(), 1);
}

#[test]
fn numbered_tile_is_uncovered_alone() {
    let mut field = board(3, 3, 12, vec![4]);
    field.uncover_tile(0);
    assert_eq!(hidden(&field), vec![false, true, true, true, true, true, true, true, true]);
}

#[test]
fn uncovering_takes_the_marker_off_and_counts_it() {
    let mut field = board(3, 3, 12, vec![4]);
    field.flag_tile(0);
    assert_eq!(field.flagged_mine_count(), 1);
    field.uncover_tile(0);
    assert_eq!(field.get_tile_flag(0), None);
    assert_eq!(field.flagged_mine_count(), 0);
    assert!(!field.tile_is_hidden(0));
}

#[test]
fn chord_uncovers_the_unflagged_neighbour() {
    let mut field = board(2, 2, 50, vec![0, 1]);
    assert_eq!(field.get_tile_content(3), TileContent::Danger(2));
    field.uncover_tile(3);
    assert_eq!(hidden(&field), vec![true, true, true, false]);
    field.flag_tile(0);
    field.flag_tile(1);
    field.uncover_tile(3);
    assert_eq!(hidden(&field), vec![true, true, false, false]);
    assert_eq!(field.get_tile_flag(0), Some(Flag::Mine));
    assert_eq!(field.get_tile_flag(1), Some(Flag::Mine));
    assert!(field.check_win());
}

#[test]
fn chord_with_too_few_markers_does_nothing() {
    let mut field = board(2, 2, 50, vec![0, 1]);
    field.uncover_tile(3);
    field.flag_tile(0);
    field.uncover_tile(3);
    assert_eq!(hidden(&field), vec![true, true, true, false]);
    assert_eq!(field.get_tile_flag(0), Some(Flag::Mine));
    assert_eq!(field.flagged_mine_count(), 1);
}

#[test]
fn chord_leaves_question_marks_alone() {
    // one row of three tiles, the mine under the first
    let mut field = board(1, 3, 34, vec![0]);
    field.uncover_tile(1);
    field.flag_tile(0);
    // the cap on mine markers is reached: this one becomes a question mark
    field.flag_tile(2);
    assert_eq!(field.get_tile_flag(2), Some(Flag::Question));
    field.uncover_tile(1);
    assert_eq!(hidden(&field), vec![true, false, true]);
    assert_eq!(field.get_tile_flag(2), Some(Flag::Question));
    assert!(!field.check_win());
}

#[test]
fn chord_floods_from_an_empty_neighbour() {
    // one mine at the corner; the centre tile counts one
    let mut field = board(3, 3, 12, vec![0]);
    field.uncover_tile(4);
    field.flag_tile(0);
    field.flag_tile(1);
    assert_eq!(field.get_tile_flag(1), Some(Flag::Question));
    field.uncover_tile(4);
    // the flood from the empty neighbours uncovers the marked tile too
    let now = hidden(&field);
    assert!(now[0]);
    for i in 1..9 {
        assert!(!now[i]);
    }
    assert_eq!(field.get_tile_flag(1), None);
    assert!(field.check_win());
}

#[test]
fn chord_on_a_wrongly_flagged_tile_loses() {
    let mut field = board(3, 3, 12, vec![0]);
    field.uncover_tile(4);
    field.flag_tile(8);
    field.uncover_tile(4);
    assert!(hidden(&field).iter().all(|h| !h));
    assert_eq!(field.get_tile_flag(8), Some(Flag::Mine));
}

#[test]
fn uncovering_a_visible_empty_tile_changes_nothing() {
    let mut field = board(1, 4, 25, vec![3]);
    field.uncover_tile(0);
    field.hide_tile(1);
    field.uncover_tile(0);
    assert_eq!(hidden(&field), vec![false, true, false, true]);
}

#[test]
fn flag_cycle() {
    let mut field = Minefield::new(1, 1, 100);
    assert_eq!(field.get_tile_flag(0), None);
    field.flag_tile(0);
    assert_eq!(field.get_tile_flag(0), Some(Flag::Mine));
    assert_eq!(field.flagged_mine_count(), 1);
    field.flag_tile(0);
    assert_eq!(field.get_tile_flag(0), Some(Flag::Question));
    assert_eq!(field.flagged_mine_count(), 0);
    field.flag_tile(0);
    assert_eq!(field.get_tile_flag(0), None);
    assert_eq!(field.flagged_mine_count(), 0);
}

#[test]
fn flag_skips_the_mine_marker_at_the_cap() {
    let mut field = board(2, 2, 25, vec![0]);
    field.flag_tile(1);
    assert_eq!(field.get_tile_flag(1), Some(Flag::Mine));
    field.flag_tile(2);
    assert_eq!(field.get_tile_flag(2), Some(Flag::Question));
    assert_eq!(field.flagged_mine_count(), 1);
    field.flag_tile(1);
    assert_eq!(field.flagged_mine_count(), 0);
    field.flag_tile(3);
    assert_eq!(field.get_tile_flag(3), Some(Flag::Mine));
}

#[test]
fn flag_on_a_board_without_mines_is_a_question_mark() {
    let mut field = Minefield::new(2, 2, 0);
    field.flag_tile(0);
    assert_eq!(field.get_tile_flag(0), Some(Flag::Question));
}

#[test]
fn flag_on_a_visible_tile_does_nothing() {
    let mut field = board(2, 2, 25, vec![0]);
    field.uncover_tile(3);
    field.flag_tile(3);
    assert_eq!(field.get_tile_flag(3), None);
    assert_eq!(field.flagged_mine_count(), 0);
}

#[test]
fn win_scenario() {
    let mut field = board(2, 2, 25, vec![0]);
    field.flag_tile(0);
    field.uncover_tile(1);
    field.uncover_tile(2);
    field.uncover_tile(3);
    assert!(field.check_win());
}

#[test]
fn no_win_with_a_safe_tile_hidden() {
    let mut field = board(2, 2, 25, vec![0]);
    field.flag_tile(0);
    field.uncover_tile(2);
    field.uncover_tile(3);
    assert!(field.tile_is_hidden(1));
    assert!(!field.check_win());
}

#[test]
fn no_win_with_a_question_mark_on_the_mine() {
    let mut field = board(2, 2, 25, vec![0]);
    field.flag_tile(0);
    field.flag_tile(0);
    field.uncover_tile(1);
    field.uncover_tile(2);
    field.uncover_tile(3);
    assert!(!field.check_win());
}

#[test]
fn no_win_without_a_marker_on_the_mine() {
    let mut field = board(2, 2, 25, vec![0]);
    field.uncover_tile(1);
    field.uncover_tile(2);
    field.uncover_tile(3);
    assert!(!field.check_win());
}

#[test]
fn loss_scenario() {
    let mut field = board(2, 2, 25, vec![0]);
    field.flag_tile(3);
    field.uncover_tile(0);
    assert!(hidden(&field).iter().all(|h| !h));
    // the markers on the other tiles stay
    assert_eq!(field.get_tile_flag(3), Some(Flag::Mine));
    assert!(!field.check_win());
}

#[test]
fn reset_starts_a_new_game() {
    let mut field = board(3, 3, 25, vec![0, 4]);
    field.flag_tile(0);
    field.uncover_tile(8);
    field.reset();
    assert_eq!(field.mine_locations().len(), 2);
    assert_eq!(field.flagged_mine_count(), 0);
    for i in 0..9 {
        assert!(field.tile_is_hidden(i));
        assert_eq!(field.get_tile_flag(i), None);
    }
}

#[test]
fn reveal_all_turns_every_tile_up() {
    let mut field = board(2, 3, 34, vec![1, 4]);
    field.flag_tile(1);
    field.reveal_all();
    assert!(hidden(&field).iter().all(|h| !h));
    assert_eq!(field.get_tile_flag(1), Some(Flag::Mine));
    assert_eq!(field.flagged_mine_count(), 1);
}

#[test]
fn reset_tile_blanks_one_tile() {
    let mut field = board(2, 2, 25, vec![0]);
    field.uncover_tile(3);
    field.reset_tile(3);
    assert!(field.tile_is_hidden(3));
    assert_eq!(field.get_tile_content(3), TileContent::Danger(0));
    assert_eq!(field.get_tile_flag(3), None);
    assert_eq!(field.get_tile_content(0), TileContent::Mine);
}

#[test]
fn face_of_a_tile() {
    let mut field = board(1, 4, 25, vec![3]);
    assert_eq!(field.tile_face(0), Face::Blank);
    field.flag_tile(0);
    assert_eq!(field.tile_face(0), Face::FlagMine);
    field.flag_tile(1);
    assert_eq!(field.tile_face(1), Face::FlagQuestion);
    field.uncover_tile(2);
    assert_eq!(field.tile_face(2), Face::Danger(1));
    field.uncover_tile(3);
    assert_eq!(field.tile_face(3), Face::Mine);
    assert_eq!(field.tile_face(1), Face::Danger(0));
    // a marker that is left on a tile that the loss has turned up does not show
    assert_eq!(field.get_tile_flag(0), Some(Flag::Mine));
    assert_eq!(field.tile_face(0), Face::Danger(0));
}

/// The tiles that a flood from `start` turns up, found with a work list.
fn flood_model(field: &Minefield, start: usize) -> Vec<bool> {
    let (rows, cols) = (field.rows(), field.cols());
    let mut now = hidden(field);
    let mut work = vec![start];
    now[start] = false;
    while let Some(tile) = work.pop() {
        if field.get_tile_content(tile) != TileContent::Danger(0) {
            continue;
        }
        for next in around(rows, cols, tile) {
            if now[next] {
                now[next] = false;
                work.push(next);
            }
        }
    }
    now
}

#[test]
fn flood_uncovers_what_a_work_list_finds() {
    for _ in 0..10 {
        let first = Minefield::new(7, 9, 12);
        let mines = first.mine_locations().clone();
        for start in 0..63 {
            if mines.contains(&start) {
                continue;
            }
            let mut field = board(7, 9, 12, mines.clone());
            let expected = flood_model(&field, start);
            field.uncover_tile(start);
            assert_eq!(hidden(&field), expected);
            // a second flood from a tile that is left goes on from there
            if let Some(second) = (0..63).find(|t| expected[*t] && !mines.contains(t)) {
                let expected = flood_model(&field, second);
                field.uncover_tile(second);
                assert_eq!(hidden(&field), expected);
            }
        }
    }
}

#[test]
fn counter_follows_the_markers_through_a_game() {
    let mut seed: u64 = 0x2545_f491_4f6c_dd1d;
    let mut next = move |below: usize| {
        seed ^= seed << 13;
        seed ^= seed >> 7;
        seed ^= seed << 17;
        (seed % below as u64) as usize
    };
    for _ in 0..20 {
        let mut field = Minefield::new(6, 6, 20);
        let mines = field.mine_locations().clone();
        for _ in 0..60 {
            let tile = next(36);
            let was_hidden = hidden(&field);
            if next(3) == 0 {
                field.uncover_tile(tile);
            } else {
                field.flag_tile(tile);
            }
            let marked = (0..36).filter(|t| field.get_tile_flag(*t) == Some(Flag::Mine)).count();
            assert_eq!(field.flagged_mine_count(), marked);
            assert!(marked <= mines.len());
            assert_eq!(field.mine_locations(), &mines);
            let now = hidden(&field);
            for t in 0..36 {
                // no tile is hidden again
                assert!(was_hidden[t] || !now[t]);
                assert_eq!(field.get_tile_content(t) == TileContent::Mine, mines.contains(&t));
            }
            // once a mine shows, every tile shows
            if mines.iter().any(|m| !now[*m]) {
                assert!(now.iter().all(|h| !h));
            }
        }
    }
}

#[test]
fn uncovering_any_tile_of_a_mine_free_board_uncovers_all() {
    for start in 0..12 {
        let mut field = Minefield::new(3, 4, 0);
        field.uncover_tile(start);
        assert!(hidden(&field).iter().all(|h| !h));
    }
}

#[test]
fn uncovering_again_on_an_open_board_changes_nothing() {
    let mut field = Minefield::new(4, 4, 0);
    field.uncover_tile(0);
    field.uncover_tile(0);
    field.uncover_tile(5);
    assert!(hidden(&field).iter().all(|h| !h));
}
