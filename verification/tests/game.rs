use bevy_hehe::board::{Board, ClickAction, BOARD_SIZE};
use bevy_hehe::economy::Economy;
use bevy_hehe::game::{
    activate_generator, activate_generator_with, complete_drag, press_cell, setup_initial_board,
    has_merge_room, submit_order, tick_auto_generators, AutoGenState, GenerateOutcome, MAX_STORED_EGGS,
};
use bevy_hehe::items::{ChainType, GenerationOption, ItemDatabase, ItemDef};
use bevy_hehe::orders::{Order, Orders};

fn def(id: &str, level: u32, merge: Option<&str>) -> ItemDef {
    ItemDef {
        id: id.to_string(),
        chain: ChainType::Egg,
        level,
        name: id.to_string(),
        icon_path: None,
        is_generator: false,
        is_auto_generator: false,
        generates: Vec::new(),
        generates_id: None,
        auto_gen_interval_ms: 0,
        merge_result_id: merge.map(|m| m.to_string()),
        bg_color: ("0.5".to_string(), "0.5".to_string(), "0.5".to_string()),
        generates_count: 1,
        consumes_on_generate: false,
        max_generate_count: 0,
    }
}

fn hen() -> ItemDef {
    let mut h = def("hen_6", 6, None);
    h.is_generator = true;
    h.is_auto_generator = true;
    h.generates_id = Some("egg_1".to_string());
    h.auto_gen_interval_ms = 1000;
    h
}

fn pot(count: u32, consumes: bool) -> ItemDef {
    let mut p = def("pot_4", 4, None);
    p.is_generator = true;
    p.generates = vec![GenerationOption { item_id: "tea_1".to_string(), weight: 1 }];
    p.generates_count = count;
    p.consumes_on_generate = consumes;
    p
}

fn db() -> ItemDatabase {
    ItemDatabase::from_items(vec![
        hen(),
        pot(2, false),
        def("egg_1", 1, Some("egg_2")),
        def("egg_2", 2, None),
        def("tea_1", 1, Some("tea_2")),
        def("tea_2", 2, None),
    ])
}

fn fill_all(b: &mut Board, except: &[usize]) {
    for i in 0..BOARD_SIZE {
        if !except.contains(&i) {
            b.place(i, "egg_2");
        }
    }
}

#[test]
fn hen_stores_and_places_eggs_next_to_itself() {
    let db = db();
    let mut b = Board::new();
    b.place(0, "hen_6");
    let mut st = AutoGenState::new();
    assert!(!tick_auto_generators(&mut b, &db, &mut st, 400));
    assert_eq!(st.timers_ms[0], 400);
    assert_eq!(b.first_empty(), Some(1));
    assert!(!tick_auto_generators(&mut b, &db, &mut st, 700));
    assert_eq!(st.timers_ms[0], 100);
    assert_eq!(b.cells[1].item_id.as_deref(), Some("egg_1"));
    assert_eq!(st.eggs[0], 0);
}

#[test]
fn hen_keeps_at_most_six_eggs_and_warns_on_full_board() {
    let db = db();
    let mut b = Board::new();
    b.place(0, "hen_6");
    fill_all(&mut b, &[]);
    let mut st = AutoGenState::new();
    for _ in 0..10 {
        assert!(tick_auto_generators(&mut b, &db, &mut st, 1000));
    }
    assert_eq!(st.eggs[0], MAX_STORED_EGGS);
    // free a neighbour: one stored egg goes there on the next tick
    b.take(8);
    assert!(!tick_auto_generators(&mut b, &db, &mut st, 10));
    assert_eq!(b.cells[8].item_id.as_deref(), Some("egg_1"));
    assert_eq!(st.eggs[0], MAX_STORED_EGGS - 1);
}

#[test]
fn hen_activation_places_stored_egg_first() {
    let db = db();
    let mut b = Board::new();
    let mut e = Economy::default();
    b.place(10, "hen_6");
    let mut st = AutoGenState::new();
    st.eggs[10] = 2;
    let r = activate_generator_with(&mut b, &mut e, &mut st, &db, 10, "hen_6", false, &Vec::new());
    assert!(matches!(r, GenerateOutcome::EggPlaced { from_storage: true, remaining: 1 }));
    assert_eq!(b.cells[2].item_id.as_deref(), Some("egg_1"));
    assert_eq!(e.stamina, 100);
    let r = activate_generator_with(&mut b, &mut e, &mut st, &db, 10, "hen_6", false, &Vec::new());
    assert!(matches!(r, GenerateOutcome::EggPlaced { from_storage: true, remaining: 0 }));
    let r = activate_generator_with(&mut b, &mut e, &mut st, &db, 10, "hen_6", false, &Vec::new());
    assert!(matches!(r, GenerateOutcome::EggPlaced { from_storage: false, remaining: 0 }));
}

#[test]
fn generator_spends_stamina_and_places_outputs() {
    let db = db();
    let mut b = Board::new();
    let mut e = Economy::default();
    let mut st = AutoGenState::new();
    b.place(0, "pot_4");
    let picks = vec![Some("tea_1".to_string()), Some("tea_1".to_string())];
    let r = activate_generator_with(&mut b, &mut e, &mut st, &db, 0, "pot_4", false, &picks);
    match r {
        GenerateOutcome::Generated { placed, last } => {
            assert_eq!(placed, 2);
            assert_eq!(last, "tea_1");
        }
        other => panic!("unexpected {other:?}"),
    }
    assert_eq!(e.stamina, 99);
    assert_eq!(b.cells[1].item_id.as_deref(), Some("tea_1"));
    assert_eq!(b.cells[7].item_id.as_deref(), Some("tea_1"));
}

#[test]
fn double_mode_costs_two_and_upgrades_outputs() {
    let db = db();
    let mut b = Board::new();
    let mut e = Economy::default();
    let mut st = AutoGenState::new();
    b.place(0, "pot_4");
    let picks = vec![Some("tea_1".to_string())];
    let r = activate_generator_with(&mut b, &mut e, &mut st, &db, 0, "pot_4", true, &picks);
    assert!(matches!(r, GenerateOutcome::Generated { placed: 1, .. }));
    assert_eq!(e.stamina, 98);
    assert_eq!(b.cells[1].item_id.as_deref(), Some("tea_2"));
}

#[test]
fn full_board_refunds_stamina() {
    let db = db();
    let mut b = Board::new();
    let mut e = Economy::default();
    e.stamina = 150;
    let mut st = AutoGenState::new();
    b.place(0, "pot_4");
    fill_all(&mut b, &[]);
    let picks = vec![Some("tea_1".to_string())];
    let r = activate_generator_with(&mut b, &mut e, &mut st, &db, 0, "pot_4", false, &picks);
    assert!(matches!(r, GenerateOutcome::BoardFull));
    assert_eq!(e.stamina, 150);
}

#[test]
fn not_enough_stamina_changes_nothing() {
    let db = db();
    let mut b = Board::new();
    let mut e = Economy::default();
    e.stamina = 1;
    let mut st = AutoGenState::new();
    b.place(0, "pot_4");
    let picks = vec![Some("tea_1".to_string())];
    let r = activate_generator_with(&mut b, &mut e, &mut st, &db, 0, "pot_4", true, &picks);
    assert!(matches!(r, GenerateOutcome::NotEnoughStamina));
    assert_eq!(e.stamina, 1);
    assert_eq!(b.first_empty(), Some(1));
}

#[test]
fn consumable_generator_disappears() {
    let db = ItemDatabase::from_items(vec![pot(1, true), def("tea_1", 1, None)]);
    let mut b = Board::new();
    let mut e = Economy::default();
    let mut st = AutoGenState::new();
    b.place(5, "pot_4");
    let picks = vec![Some("tea_1".to_string())];
    activate_generator_with(&mut b, &mut e, &mut st, &db, 5, "pot_4", false, &picks);
    assert_eq!(b.cells[5].item_id, None);
    assert_eq!(b.cells[4].item_id.as_deref(), Some("tea_1"));
}

#[test]
fn random_activation_draws_table_outputs() {
    let db = db();
    let mut b = Board::new();
    let mut e = Economy::default();
    let mut st = AutoGenState::new();
    b.place(0, "pot_4");
    let r = activate_generator(&mut b, &mut e, &mut st, &db, 0, "pot_4", false);
    assert!(matches!(r, GenerateOutcome::Generated { placed: 2, .. }));
    assert_eq!(b.cells[1].item_id.as_deref(), Some("tea_1"));
}

#[test]
fn press_merges_and_earns_experience() {
    let db = db();
    let mut b = Board::new();
    let mut e = Economy::default();
    let mut st = AutoGenState::new();
    b.place(3, "tea_1");
    b.place(4, "tea_1");
    press_cell(&mut b, &mut e, &mut st, &db, 3, false);
    let (a, g) = press_cell(&mut b, &mut e, &mut st, &db, 4, false);
    assert!(matches!(a, ClickAction::Merged { .. }));
    assert!(g.is_none());
    assert_eq!(e.exp, 20);
    assert_eq!(b.cells[4].item_id.as_deref(), Some("tea_2"));
}

#[test]
fn press_twice_on_generator_generates() {
    let db = db();
    let mut b = Board::new();
    let mut e = Economy::default();
    let mut st = AutoGenState::new();
    b.place(0, "pot_4");
    press_cell(&mut b, &mut e, &mut st, &db, 0, false);
    let (a, g) = press_cell(&mut b, &mut e, &mut st, &db, 0, false);
    assert!(matches!(a, ClickAction::GeneratorActivated(0, _)));
    assert!(matches!(g, Some(GenerateOutcome::Generated { placed: 2, .. })));
    assert_eq!(e.stamina, 99);
}

#[test]
fn drag_onto_itself_does_nothing_and_merge_earns_experience() {
    let db = db();
    let mut b = Board::new();
    let mut e = Economy::default();
    b.place(3, "egg_1");
    b.place(9, "egg_1");
    assert!(matches!(complete_drag(&mut b, &mut e, &db, 3, 3), ClickAction::Nothing));
    assert!(matches!(complete_drag(&mut b, &mut e, &db, 3, 9), ClickAction::Merged { .. }));
    assert_eq!(e.exp, 20);
    assert_eq!(b.cells[9].item_id.as_deref(), Some("egg_2"));
}

#[test]
fn submitting_an_order_clears_cells_and_pays() {
    let db = db();
    let mut b = Board::new();
    let mut e = Economy::default();
    b.place(2, "egg_1");
    b.place(6, "tea_1");
    let mut orders = Orders::new(vec![(vec!["egg_2".to_string()], 11)]);
    orders.orders.push(Order { id: 1, items: vec!["tea_1".to_string(), "egg_1".to_string()], coin_reward: 25, time_remaining_ms: 60_000 });
    orders.next_id = 2;
    assert_eq!(submit_order(&mut b, &mut e, &mut orders, &db, 0), Some(25));
    assert_eq!(b.cells[2].item_id, None);
    assert_eq!(b.cells[6].item_id, None);
    assert_eq!(e.coins, 25);
    assert_eq!(e.exp, 50);
    assert_eq!(orders.orders.len(), 3);
    assert_eq!(orders.orders[0].id, 2);
    assert_eq!(submit_order(&mut b, &mut e, &mut orders, &db, 0), None);
    assert_eq!(submit_order(&mut b, &mut e, &mut orders, &db, 7), None);
    assert_eq!(e.coins, 25);
}

#[test]
fn initial_board_skips_occupied_cells() {
    let mut b = Board::new();
    let entries = vec![
        (0usize, 0usize, "egg_1".to_string()),
        (6, 8, "tea_1".to_string()),
        (0, 0, "tea_2".to_string()),
    ];
    setup_initial_board(&mut b, &entries);
    assert_eq!(b.cells[0].item_id.as_deref(), Some("egg_1"));
    assert_eq!(b.cells[62].item_id.as_deref(), Some("tea_1"));
}

#[test]
fn generated_outcome_names_the_last_piece_placed() {
    let db = db();
    let mut b = Board::new();
    let mut e = Economy::default();
    let mut st = AutoGenState::new();
    b.place(0, "pot_4");
    b.dirty = false;
    let picks = vec![Some("tea_1".to_string()), Some("egg_1".to_string())];
    let r = activate_generator_with(&mut b, &mut e, &mut st, &db, 0, "pot_4", false, &picks);
    match r {
        GenerateOutcome::Generated { placed, last } => {
            assert_eq!(placed, 2);
            assert_eq!(last, "egg_1");
        }
        other => panic!("unexpected {other:?}"),
    }
    assert!(b.dirty);
}

#[test]
fn submitting_marks_the_board_for_redraw() {
    let db = db();
    let mut b = Board::new();
    let mut e = Economy::default();
    b.place(6, "tea_1");
    b.dirty = false;
    let mut orders = Orders::new(Vec::new());
    orders.orders.push(Order { id: 1, items: vec!["tea_1".to_string()], coin_reward: 3, time_remaining_ms: 1 });
    orders.next_id = 2;
    assert_eq!(submit_order(&mut b, &mut e, &mut orders, &db, 0), Some(3));
    assert!(b.dirty);
    assert!(orders.orders.iter().all(|o| o.id != 1));
}

#[test]
fn merge_room_looks_only_at_merging_pieces() {
    let db = db();
    let mut e = Economy::default();
    let tea = Some("tea_1".to_string());
    let egg = Some("egg_1".to_string());
    e.exp = u64::MAX;
    assert!(!has_merge_room(&db, &e, &tea, &tea));
    assert!(has_merge_room(&db, &e, &tea, &egg));
    assert!(has_merge_room(&db, &e, &tea, &None));
    e.exp = 0;
    assert!(has_merge_room(&db, &e, &tea, &tea));
}

#[test]
fn initial_board_places_each_listed_piece() {
    let mut b = Board::new();
    let entries = vec![(0, 0, "tea_1".to_string()), (6, 8, "egg_1".to_string()), (3, 2, "pot_4".to_string())];
    setup_initial_board(&mut b, &entries);
    assert_eq!(b.cells[0].item_id.as_deref(), Some("tea_1"));
    assert_eq!(b.cells[62].item_id.as_deref(), Some("egg_1"));
    assert_eq!(b.cells[17].item_id.as_deref(), Some("pot_4"));
    assert_eq!(b.cells.iter().filter(|c| c.item_id.is_some()).count(), 3);
}
