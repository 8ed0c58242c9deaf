use bevy_hehe::board::{mergeable_pairs, Board, ClickAction, BOARD_COLS, BOARD_SIZE};
use bevy_hehe::items::{ChainType, ItemDatabase, ItemDef};

fn def(id: &str, level: u32, merge: Option<&str>, generator: bool) -> ItemDef {
    ItemDef {
        id: id.to_string(),
        chain: ChainType::Teapot,
        level,
        name: id.to_string(),
        icon_path: None,
        is_generator: generator,
        is_auto_generator: false,
        generates: Vec::new(),
        generates_id: None,
        auto_gen_interval_ms: 0,
        merge_result_id: merge.map(|m| m.to_string()),
        bg_color: ("0.5".to_string(), "0.5".to_string(), "0.5".to_string()),
        generates_count: 1,
        consumes_on_generate: false,
        max_generate_count: 0,
    }
}

fn db() -> ItemDatabase {
    ItemDatabase::from_items(vec![
        def("tea_1", 1, Some("tea_2"), false),
        def("tea_2", 2, None, false),
        def("pot_4", 4, None, true),
        def("ring_1", 1, Some("ring_2"), false),
    ])
}

fn item(b: &Board, i: usize) -> Option<&str> {
    b.cells[i].item_id.as_deref()
}

#[test]
fn idx_and_pos_are_inverse() {
    assert_eq!(Board::idx(3, 2), 17);
    assert_eq!(Board::pos(17), (3, 2));
    for i in 0..BOARD_SIZE {
        let (c, r) = Board::pos(i);
        assert!(c < BOARD_COLS);
        assert_eq!(Board::idx(c, r), i);
    }
}

#[test]
fn new_board_is_empty() {
    let b = Board::new();
    assert_eq!(b.cells.len(), 63);
    assert!(b.cells.iter().all(|c| c.item_id.is_none()));
    assert_eq!(b.selected, None);
    assert!(b.dirty);
}

#[test]
fn place_only_into_empty_cell() {
    let mut b = Board::new();
    b.dirty = false;
    assert!(b.place(5, "tea_1"));
    assert!(b.dirty);
    assert!(!b.place(5, "ring_1"));
    assert_eq!(item(&b, 5), Some("tea_1"));
}

#[test]
fn take_empties_cell() {
    let mut b = Board::new();
    b.place(9, "tea_1");
    b.dirty = false;
    assert_eq!(b.take(9).as_deref(), Some("tea_1"));
    assert!(b.dirty);
    assert_eq!(item(&b, 9), None);
    b.dirty = false;
    assert_eq!(b.take(9), None);
    assert!(!b.dirty);
}

#[test]
fn first_empty_skips_occupied() {
    let mut b = Board::new();
    assert_eq!(b.first_empty(), Some(0));
    b.place(0, "tea_1");
    b.place(1, "tea_1");
    assert_eq!(b.first_empty(), Some(2));
    for i in 0..BOARD_SIZE {
        b.place(i, "ring_1");
    }
    assert_eq!(b.first_empty(), None);
}

#[test]
fn adjacent_empty_scans_rows_above_first() {
    let mut b = Board::new();
    // cell (3, 4) = 31; its upper-left neighbour is (2, 3) = 23
    assert_eq!(b.adjacent_empty(31), Some(23));
    b.place(23, "tea_1");
    assert_eq!(b.adjacent_empty(31), Some(24));
    b.place(24, "tea_1");
    b.place(25, "tea_1");
    assert_eq!(b.adjacent_empty(31), Some(30));
}

#[test]
fn adjacent_empty_respects_board_edges() {
    let b = Board::new();
    // top-left corner: first neighbour is its right neighbour
    assert_eq!(b.adjacent_empty(0), Some(1));
    // cell 7 = (0, 1): left column, the first neighbour is (0, 0)
    assert_eq!(b.adjacent_empty(7), Some(0));
    // cell 13 = (6, 1): right edge; first neighbour is (5, 0) = 5
    assert_eq!(b.adjacent_empty(13), Some(5));
}

#[test]
fn place_near_prefers_neighbours_then_first_empty() {
    let mut b = Board::new();
    for i in [0usize, 1, 7, 8] {
        b.place(i, "ring_1");
    }
    // cell 0's neighbours 1, 7, 8 are full: the first empty cell is 2
    assert!(b.place_near(0, "tea_1"));
    assert_eq!(item(&b, 2), Some("tea_1"));
    assert!(b.place_near(9, "tea_2"));
    assert_eq!(item(&b, 3), Some("tea_2"));
}

#[test]
fn place_near_on_full_board_fails() {
    let mut b = Board::new();
    for i in 0..BOARD_SIZE {
        b.place(i, "ring_1");
    }
    b.dirty = false;
    assert!(!b.place_near(10, "tea_1"));
    assert!(!b.dirty);
}

#[test]
fn click_selects_then_merges() {
    let db = db();
    let mut b = Board::new();
    b.place(0, "tea_1");
    b.place(5, "tea_1");
    assert!(matches!(b.handle_click(0, &db), ClickAction::Selected(0)));
    assert_eq!(b.selected, Some(0));
    match b.handle_click(5, &db) {
        ClickAction::Merged { source, target, result } => {
            assert_eq!((source, target, result.as_str()), (0, 5, "tea_2"));
        }
        other => panic!("unexpected {other:?}"),
    }
    assert_eq!(item(&b, 0), None);
    assert_eq!(item(&b, 5), Some("tea_2"));
    assert_eq!(b.selected, None);
}

#[test]
fn click_on_empty_cell_without_selection_does_nothing() {
    let db = db();
    let mut b = Board::new();
    assert!(matches!(b.handle_click(4, &db), ClickAction::Nothing));
    assert_eq!(b.selected, None);
}

#[test]
fn click_moves_selected_piece_to_empty_cell() {
    let db = db();
    let mut b = Board::new();
    b.place(2, "ring_1");
    b.handle_click(2, &db);
    match b.handle_click(40, &db) {
        ClickAction::Moved { from, to, item: it } => {
            assert_eq!((from, to, it.as_str()), (2, 40, "ring_1"));
        }
        other => panic!("unexpected {other:?}"),
    }
    assert_eq!(item(&b, 2), None);
    assert_eq!(item(&b, 40), Some("ring_1"));
}

#[test]
fn click_on_other_piece_switches_selection() {
    let db = db();
    let mut b = Board::new();
    b.place(2, "ring_1");
    b.place(3, "tea_1");
    b.handle_click(2, &db);
    assert!(matches!(b.handle_click(3, &db), ClickAction::Selected(3)));
    assert_eq!(b.selected, Some(3));
    assert_eq!(item(&b, 2), Some("ring_1"));
}

#[test]
fn second_click_deselects_or_activates_generator() {
    let db = db();
    let mut b = Board::new();
    b.place(2, "ring_1");
    b.place(3, "pot_4");
    b.handle_click(2, &db);
    assert!(matches!(b.handle_click(2, &db), ClickAction::Deselected));
    assert_eq!(b.selected, None);
    b.handle_click(3, &db);
    match b.handle_click(3, &db) {
        ClickAction::GeneratorActivated(i, id) => {
            assert_eq!((i, id.as_str()), (3, "pot_4"));
        }
        other => panic!("unexpected {other:?}"),
    }
    assert_eq!(b.selected, None);
}

#[test]
fn top_level_pieces_do_not_merge_on_click() {
    let db = db();
    let mut b = Board::new();
    b.place(0, "tea_2");
    b.place(1, "tea_2");
    b.handle_click(0, &db);
    assert!(matches!(b.handle_click(1, &db), ClickAction::Selected(1)));
    assert_eq!(item(&b, 0), Some("tea_2"));
    assert_eq!(item(&b, 1), Some("tea_2"));
}

#[test]
fn drag_merges_equal_pieces() {
    let db = db();
    let mut b = Board::new();
    b.place(10, "ring_1");
    b.place(20, "ring_1");
    b.selected = Some(10);
    match b.handle_drag(10, 20, &db) {
        ClickAction::Merged { source, target, result } => {
            assert_eq!((source, target, result.as_str()), (10, 20, "ring_2"));
        }
        other => panic!("unexpected {other:?}"),
    }
    assert_eq!(item(&b, 10), None);
    assert_eq!(item(&b, 20), Some("ring_2"));
    assert_eq!(b.selected, None);
}

#[test]
fn drag_swaps_incompatible_pieces() {
    let db = db();
    let mut b = Board::new();
    b.place(10, "ring_1");
    b.place(20, "tea_1");
    assert!(matches!(b.handle_drag(10, 20, &db), ClickAction::Swapped { from: 10, to: 20 }));
    assert_eq!(item(&b, 10), Some("tea_1"));
    assert_eq!(item(&b, 20), Some("ring_1"));
}

#[test]
fn drag_moves_to_empty_cell_and_ignores_empty_source() {
    let db = db();
    let mut b = Board::new();
    b.place(10, "ring_1");
    assert!(matches!(b.handle_drag(10, 11, &db), ClickAction::Moved { from: 10, to: 11, .. }));
    assert_eq!(item(&b, 11), Some("ring_1"));
    b.dirty = false;
    assert!(matches!(b.handle_drag(10, 12, &db), ClickAction::Nothing));
    assert!(!b.dirty);
    assert_eq!(item(&b, 12), None);
}

#[test]
fn mergeable_pairs_lists_equal_mergeable_pieces() {
    let db = db();
    let mut b = Board::new();
    b.place(3, "tea_1");
    b.place(10, "tea_1");
    b.place(20, "tea_1");
    b.place(0, "tea_2");
    b.place(1, "tea_2");
    b.place(5, "ring_1");
    b.place(62, "ring_1");
    b.place(7, "unknown");
    b.place(8, "unknown");
    assert_eq!(mergeable_pairs(&b, &db), vec![(3, 10), (3, 20), (5, 62), (10, 20)]);
}

#[test]
fn mergeable_pairs_empty_board_has_none() {
    assert!(mergeable_pairs(&Board::new(), &db()).is_empty());
}

#[test]
fn adjacent_empty_below_the_board_finds_last_row() {
    let b = Board::new();
    assert_eq!(b.adjacent_empty(65), Some(57));
    assert_eq!(b.adjacent_empty(100), None);
}

#[test]
fn place_near_far_index_falls_back_to_first_empty() {
    let mut b = Board::new();
    assert!(b.place_near(100, "tea_1"));
    assert_eq!(item(&b, 0), Some("tea_1"));
}
