use bevy_hehe::board::Board;
use bevy_hehe::items::{ChainType, ItemDatabase, ItemDef};
use bevy_hehe::orders::{format_time, Order, Orders, MAX_ORDERS, ORDER_TIME_LIMIT_MS};

fn def(id: &str) -> ItemDef {
    ItemDef {
        id: id.to_string(),
        chain: ChainType::Dough,
        level: 1,
        name: id.to_string(),
        icon_path: None,
        is_generator: false,
        is_auto_generator: false,
        generates: Vec::new(),
        generates_id: None,
        auto_gen_interval_ms: 0,
        merge_result_id: None,
        bg_color: ("0.5".to_string(), "0.5".to_string(), "0.5".to_string()),
        generates_count: 1,
        consumes_on_generate: false,
        max_generate_count: 0,
    }
}

fn strings(v: &[&str]) -> Vec<String> {
    v.iter().map(|s| s.to_string()).collect()
}

fn panel(orders: Vec<Order>) -> Orders {
    let mut p = Orders::new(Vec::new());
    p.orders = orders;
    p
}

fn order(id: u32, items: &[&str], reward: u64) -> Order {
    Order { id, items: strings(items), coin_reward: reward, time_remaining_ms: 60_000 }
}

fn cells(v: &[Option<&str>]) -> Vec<Option<String>> {
    v.iter().map(|c| c.map(|s| s.to_string())).collect()
}

#[test]
fn fulfill_takes_first_free_cells() {
    let mut p = panel(vec![order(1, &["a", "b", "a"], 40), order(2, &["c"], 5)]);
    let board = cells(&[Some("b"), Some("a"), None, Some("a"), Some("a")]);
    let r = p.try_fulfill(1, &board);
    assert_eq!(r, Some((40, vec![1, 0, 3])));
    assert_eq!(p.orders.len(), 1);
    assert_eq!(p.orders[0].id, 2);
}

#[test]
fn fulfill_fails_without_enough_pieces() {
    let mut p = panel(vec![order(1, &["a", "a"], 40)]);
    let board = cells(&[Some("a"), Some("b")]);
    assert_eq!(p.try_fulfill(1, &board), None);
    assert_eq!(p.orders.len(), 1);
}

#[test]
fn fulfill_unknown_order_fails() {
    let mut p = panel(vec![order(1, &["a"], 40)]);
    let board = cells(&[Some("a")]);
    assert_eq!(p.try_fulfill(7, &board), None);
    assert_eq!(p.orders.len(), 1);
}

#[test]
fn can_complete_counts_each_piece_once() {
    let o = order(1, &["a", "a"], 10);
    let mut b = Board::new();
    b.place(3, "a");
    assert!(!o.can_complete(&b));
    b.place(8, "a");
    assert!(o.can_complete(&b));
    let none = order(2, &["x"], 1);
    assert!(!none.can_complete(&b));
}

#[test]
fn fill_orders_tops_up_to_three() {
    let db = ItemDatabase::from_items(vec![def("a"), def("b")]);
    let mut p = Orders::new(vec![(strings(&["a", "b"]), 30)]);
    p.fill_orders(&db);
    assert_eq!(p.orders.len(), MAX_ORDERS);
    let ids: Vec<u32> = p.orders.iter().map(|o| o.id).collect();
    assert_eq!(ids, vec![1, 2, 3]);
    assert_eq!(p.next_id, 4);
    assert!(p.orders.iter().all(|o| o.items == strings(&["a", "b"]) && o.coin_reward == 30));
}

#[test]
fn fill_orders_stops_without_valid_template() {
    let db = ItemDatabase::from_items(vec![def("a")]);
    let mut p = Orders::new(vec![(strings(&["zzz"]), 30)]);
    p.fill_orders(&db);
    assert!(p.orders.is_empty());
    assert_eq!(p.next_id, 1);
}

#[test]
fn generate_order_without_templates_is_none() {
    let db = ItemDatabase::from_items(vec![def("a")]);
    let mut p = Orders::new(Vec::new());
    assert!(p.generate_order(&db).is_none());
    assert_eq!(p.next_id, 1);
}

#[test]
fn order_from_template_checks_items() {
    let db = ItemDatabase::from_items(vec![def("a")]);
    let mut p = Orders::new(vec![(strings(&["a"]), 7), (strings(&["a", "q"]), 9)]);
    let o = p.order_from_template(&db, 0).unwrap();
    assert_eq!((o.id, o.coin_reward), (1, 7));
    assert!(p.order_from_template(&db, 1).is_none());
    assert_eq!(p.next_id, 2);
}

#[test]
fn format_time_seconds_only() {
    assert_eq!(format_time(0), "0s");
    assert_eq!(format_time(7), "7s");
    assert_eq!(format_time(59), "59s");
}

#[test]
fn format_time_minutes_and_seconds() {
    assert_eq!(format_time(60), "1m 0s");
    assert_eq!(format_time(65), "1m 5s");
    assert_eq!(format_time(3599), "59m 59s");
}

#[test]
fn format_time_hours_minutes_seconds() {
    assert_eq!(format_time(3600), "1h 0m 0s");
    assert_eq!(format_time(3661), "1h 1m 1s");
    assert_eq!(format_time(36_000 + 45 * 60 + 30), "10h 45m 30s");
}

#[test]
fn generate_order_succeeds_when_every_template_is_usable() {
    let db = ItemDatabase::from_items(vec![def("a"), def("b")]);
    let mut p = Orders::new(vec![(strings(&["a"]), 7), (strings(&["a", "b"]), 9)]);
    let o = p.generate_order(&db).expect("every template is usable");
    assert_eq!(o.id, 1);
    assert!((o.items == strings(&["a"]) && o.coin_reward == 7)
        || (o.items == strings(&["a", "b"]) && o.coin_reward == 9));
    assert_eq!(p.next_id, 2);
}

#[test]
fn generate_order_without_usable_template_is_none() {
    let db = ItemDatabase::from_items(vec![def("a")]);
    let mut p = Orders::new(vec![(strings(&["q"]), 7)]);
    assert!(p.generate_order(&db).is_none());
    assert_eq!(p.next_id, 1);
}

#[test]
fn new_orders_start_with_the_full_time_limit() {
    let db = ItemDatabase::from_items(vec![def("a")]);
    let mut p = Orders::new(vec![(strings(&["a"]), 7)]);
    let o = p.order_from_template(&db, 0).unwrap();
    assert_eq!(o.time_remaining_ms, ORDER_TIME_LIMIT_MS);
}

#[test]
fn tick_counts_down_and_removes_expired_orders() {
    let mut p = panel(vec![order(1, &["a"], 5), order(2, &["b"], 6), order(3, &["c"], 7)]);
    p.orders[0].time_remaining_ms = 1_000;
    p.orders[1].time_remaining_ms = 5_000;
    p.orders[2].time_remaining_ms = 2_500;
    let expired = p.tick(2_500);
    assert_eq!(expired, vec![1, 3]);
    assert_eq!(p.orders.len(), 1);
    assert_eq!(p.orders[0].id, 2);
    assert_eq!(p.orders[0].time_remaining_ms, 2_500);
}

#[test]
fn tick_without_expiry_keeps_every_order() {
    let mut p = panel(vec![order(1, &["a"], 5), order(2, &["b"], 6)]);
    let expired = p.tick(0);
    assert!(expired.is_empty());
    let ids: Vec<u32> = p.orders.iter().map(|o| o.id).collect();
    assert_eq!(ids, vec![1, 2]);
    assert_eq!(p.orders[1].time_remaining_ms, 60_000);
}
