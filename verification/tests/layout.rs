use mines::{Layout, TileRect};

#[test]
fn rect_holds_its_top_left_corner_but_not_its_far_edges() {
    let rect = TileRect { x: 1, y: 2, width: 3, height: 4 };
    assert!(rect.contains_point(1, 2));
    assert!(!rect.contains_point(0, 1));
    assert!(rect.contains_point(3, 5));
    assert!(!rect.contains_point(4, 6));
    assert!(!rect.contains_point(4, 2));
    assert!(!rect.contains_point(1, 6));
}

#[test]
fn rect_at_the_far_end_of_the_range_does_not_wrap() {
    let rect = TileRect { x: i32::MAX - 1, y: 0, width: u32::MAX, height: 1 };
    assert!(rect.contains_point(i32::MAX, 0));
    assert!(!rect.contains_point(i32::MIN, 0));
}

#[test]
fn tiles_are_laid_out_column_by_column() {
    let layout = Layout::new(2, 3, (30, 20), 2, (10, 10)).unwrap();
    assert_eq!(layout.rows(), 2);
    assert_eq!(layout.cols(), 3);
    assert_eq!(layout.tile_rect(0), TileRect { x: 10, y: 10, width: 30, height: 20 });
    assert_eq!(layout.tile_rect(1), TileRect { x: 10, y: 32, width: 30, height: 20 });
    assert_eq!(layout.tile_rect(2), TileRect { x: 42, y: 10, width: 30, height: 20 });
    assert_eq!(layout.tile_rect(5), TileRect { x: 74, y: 32, width: 30, height: 20 });
}

#[test]
fn window_leaves_the_same_room_on_both_sides() {
    let layout = Layout::framed(16, 30, (30, 30), 2).unwrap();
    assert_eq!(layout.tile_rect(0), TileRect { x: 10, y: 10, width: 30, height: 30 });
    assert_eq!(layout.window_size(), (980, 532));
}

#[test]
fn tile_under_a_point() {
    let layout = Layout::framed(2, 3, (30, 20), 2).unwrap();
    assert_eq!(layout.get_tile_index(10, 10), Some(0));
    assert_eq!(layout.get_tile_index(39, 29), Some(0));
    assert_eq!(layout.get_tile_index(40, 29), None);
    assert_eq!(layout.get_tile_index(39, 30), None);
    assert_eq!(layout.get_tile_index(10, 32), Some(1));
    assert_eq!(layout.get_tile_index(42, 10), Some(2));
    assert_eq!(layout.get_tile_index(103, 51), Some(5));
    assert_eq!(layout.get_tile_index(104, 51), None);
    assert_eq!(layout.get_tile_index(0, 0), None);
    assert_eq!(layout.get_tile_index(-5, 12), None);
}

#[test]
fn first_tile_wins_where_rectangles_overlap() {
    // a tile is wider than a column's step when the gap is nothing: no overlap
    let layout = Layout::new(1, 3, (4, 4), 0, (0, 0)).unwrap();
    assert_eq!(layout.get_tile_index(3, 0), Some(0));
    assert_eq!(layout.get_tile_index(4, 0), Some(1));
    assert_eq!(layout.get_tile_index(11, 3), Some(2));
    assert_eq!(layout.get_tile_index(12, 3), None);
}

#[test]
fn no_layout_without_a_tile_or_without_an_inside() {
    assert!(Layout::new(0, 3, (30, 30), 2, (10, 10)).is_none());
    assert!(Layout::new(3, 0, (30, 30), 2, (10, 10)).is_none());
    assert!(Layout::new(3, 3, (0, 30), 2, (10, 10)).is_none());
    assert!(Layout::new(3, 3, (30, 0), 2, (10, 10)).is_none());
    assert!(Layout::new(1, 1, (1, 1), 0, (0, 0)).is_some());
}

#[test]
fn no_layout_beyond_the_largest_position() {
    let max = 1_073_741_823usize;
    assert!(Layout::new(1, 1, (max, 1), 0, (0, 0)).is_some());
    assert!(Layout::new(1, 1, (max, 1), 1, (0, 0)).is_none());
    assert!(Layout::new(1, 1, (max, 1), 0, (1, 0)).is_none());
    assert!(Layout::new(1, 2, (max / 2, 1), 0, (1, 0)).is_some());
    assert!(Layout::new(1, 2, (max / 2, 1), 1, (0, 0)).is_none());
    assert!(Layout::new(2, 1, (1, max / 2), 0, (0, 2)).is_none());
    assert!(Layout::new(usize::MAX, usize::MAX, (1, 1), 0, (0, 0)).is_none());
    assert!(Layout::new(1, 1, (usize::MAX, usize::MAX), usize::MAX, (usize::MAX, 0)).is_none());
    assert!(Layout::framed(1, 1, (1, 1), usize::MAX).is_none());
    assert!(Layout::framed(1, 1, (1, 1), 214_748_364).is_none());
    // six gaps of 178956970 come to three below the largest position
    assert!(Layout::framed(1, 1, (3, 3), 178_956_970).is_some());
    assert!(Layout::framed(1, 1, (4, 3), 178_956_970).is_none());
    assert!(Layout::framed(1, 1, (3, 4), 178_956_970).is_none());
}
