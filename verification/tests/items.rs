use bevy_hehe::items::{ChainType, GenerationOption, ItemDatabase, ItemDef};

fn def(id: &str, level: u32, merge: Option<&str>) -> ItemDef {
    ItemDef {
        id: id.to_string(),
        chain: ChainType::Egg,
        level,
        name: format!("item {id}"),
        icon_path: None,
        is_generator: false,
        is_auto_generator: false,
        generates: Vec::new(),
        generates_id: None,
        auto_gen_interval_ms: 0,
        merge_result_id: merge.map(|m| m.to_string()),
        bg_color: ("0.5".to_string(), "0.5".to_string(), "0.5".to_string()),
        generates_count: 1,
        consumes_on_generate: false,
        max_generate_count: 0,
    }
}

fn db() -> ItemDatabase {
    ItemDatabase::from_items(vec![
        def("egg_1", 1, Some("egg_2")),
        def("egg_2", 2, Some("egg_3")),
        def("egg_3", 3, None),
    ])
}

#[test]
fn get_finds_known_items() {
    let db = db();
    assert_eq!(db.get("egg_2").map(|d| d.level), Some(2));
    assert!(db.get("egg_9").is_none());
    assert!(db.get("").is_none());
}

#[test]
fn can_merge_same_id_below_top_level() {
    let db = db();
    assert!(db.can_merge("egg_1", "egg_1"));
    assert!(db.can_merge("egg_2", "egg_2"));
}

#[test]
fn cannot_merge_different_ids() {
    let db = db();
    assert!(!db.can_merge("egg_1", "egg_2"));
}

#[test]
fn cannot_merge_top_level_or_unknown() {
    let db = db();
    assert!(!db.can_merge("egg_3", "egg_3"));
    assert!(!db.can_merge("nope", "nope"));
}

#[test]
fn later_definition_replaces_earlier() {
    let db = ItemDatabase::from_items(vec![def("a", 1, None), def("b", 1, None), def("a", 7, None)]);
    assert_eq!(db.items.len(), 2);
    assert_eq!(db.get("a").map(|d| d.level), Some(7));
    assert_eq!(db.get("b").map(|d| d.level), Some(1));
}

#[test]
fn insert_replaces_in_place() {
    let mut db = db();
    db.insert(def("egg_2", 9, None));
    assert_eq!(db.items.len(), 3);
    assert_eq!(db.get("egg_2").map(|d| d.level), Some(9));
    assert!(!db.can_merge("egg_2", "egg_2"));
}

#[test]
fn weighted_pick_follows_running_totals() {
    let mut g = def("pot", 1, None);
    g.generates = vec![
        GenerationOption { item_id: "a".to_string(), weight: 3 },
        GenerationOption { item_id: "b".to_string(), weight: 0 },
        GenerationOption { item_id: "c".to_string(), weight: 2 },
    ];
    assert_eq!(g.total_weight(), 5);
    assert_eq!(g.pick_with_roll(0), "a");
    assert_eq!(g.pick_with_roll(2), "a");
    assert_eq!(g.pick_with_roll(3), "c");
    assert_eq!(g.pick_with_roll(4), "c");
}

#[test]
fn random_pick_is_a_weighted_option() {
    let mut g = def("pot", 1, None);
    g.generates = vec![
        GenerationOption { item_id: "a".to_string(), weight: 1 },
        GenerationOption { item_id: "b".to_string(), weight: 0 },
    ];
    for _ in 0..20 {
        assert_eq!(g.pick_generated_item().as_deref(), Some("a"));
    }
}

#[test]
fn pick_without_weights_uses_fixed_output() {
    let mut g = def("hen", 1, None);
    g.generates_id = Some("egg_1".to_string());
    assert_eq!(g.pick_generated_item().as_deref(), Some("egg_1"));
    let h = def("plain", 1, None);
    assert_eq!(h.pick_generated_item(), None);
}

#[test]
fn weights_fit_for_small_tables() {
    let mut g = def("pot", 1, None);
    g.generates = vec![GenerationOption { item_id: "a".to_string(), weight: u32::MAX }];
    let db = ItemDatabase::from_items(vec![g]);
    assert!(db.weights_fit());
}
