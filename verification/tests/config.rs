use bevy_hehe::config::{
    check_item_chains, load_audio, load_board_init, load_items, load_orders, parse_bool,
    parse_chain, parse_opt_str,
};
use bevy_hehe::items::{ChainType, ItemDatabase};

const HEADER: &str = "a,b,c\nstring,string,string\n说明,说明,说明\n";

#[test]
fn parse_bool_reads_true_only() {
    assert!(parse_bool(" true "));
    assert!(!parse_bool("True"));
    assert!(!parse_bool(""));
    assert!(!parse_bool("false"));
}

#[test]
fn parse_opt_str_trims_and_drops_empty() {
    assert_eq!(parse_opt_str("  egg_1 ").as_deref(), Some("egg_1"));
    assert_eq!(parse_opt_str("   "), None);
    assert_eq!(parse_opt_str("\u{3000}茶壶\t").as_deref(), Some("茶壶"));
}

#[test]
fn parse_chain_names() {
    assert_eq!(parse_chain("Poultry"), ChainType::Poultry);
    assert_eq!(parse_chain(" CoolTea "), ChainType::CoolTea);
    assert_eq!(parse_chain("Ruby"), ChainType::Ruby);
}

#[test]
fn board_init_reads_grid() {
    let text = format!("{HEADER}egg_1,,pot_4\n\n,basket_5\r\n");
    let e = load_board_init(&text);
    assert_eq!(
        e,
        vec![
            (0, 0, "egg_1".to_string()),
            (2, 0, "pot_4".to_string()),
            (1, 2, "basket_5".to_string()),
        ]
    );
}

#[test]
fn orders_split_on_last_comma() {
    let text = format!("{HEADER}egg_1;coolTea_2 ; ,30\nring_1,x\nno comma here\n ; ,5\n");
    let t = load_orders(&text);
    assert_eq!(
        t,
        vec![
            (vec!["egg_1".to_string(), "coolTea_2".to_string()], 30),
            (vec!["ring_1".to_string()], 0),
        ]
    );
}

#[test]
fn audio_keeps_commas_in_description() {
    let text = format!("{HEADER}bgm_main, audio/bgm.wav ,背景音乐, 循环\nshort,line\n");
    let a = load_audio(&text);
    assert_eq!(a.len(), 1);
    assert_eq!(a[0].audio_code, "bgm_main");
    assert_eq!(a[0].audio_path, "audio/bgm.wav");
    assert_eq!(a[0].description, "背景音乐, 循环");
}

fn items_csv() -> String {
    let mut s = String::from("h\nh\nh\n");
    s.push_str("hen_6,Poultry,6,老母鸡,images/hen.png,true,true,egg_1,3600,hen_7,0.9,0.8,0.2,1,false,0\n");
    s.push_str("egg_1,Egg,x,鸡蛋,,false,false,,,egg_2,0.5,0.5,0.5,,false,\n");
    s.push_str("pot_4,Teapot,4,茶壶,,true,false,,1.5,,1,1,1,2,true,9\n");
    s.push_str("short,Egg,1\n");
    s
}

fn gens_csv() -> String {
    "h\nh\nh\npot_4,coolTea_1,3\npot_4,riceBall_1,1\nhen_6,egg_1,oops\n".to_string()
}

#[test]
fn items_are_read_with_defaults() {
    let items = load_items(&items_csv(), &gens_csv());
    assert_eq!(items.len(), 3);
    let hen = &items[0];
    assert_eq!(hen.id, "hen_6");
    assert_eq!(hen.chain, ChainType::Poultry);
    assert_eq!(hen.level, 6);
    assert_eq!(hen.name, "老母鸡");
    assert_eq!(hen.icon_path.as_deref(), Some("images/hen.png"));
    assert!(hen.is_generator && hen.is_auto_generator);
    assert_eq!(hen.generates_id.as_deref(), Some("egg_1"));
    assert_eq!(hen.auto_gen_interval_ms, 3_600_000);
    assert_eq!(hen.generates.len(), 1);
    assert_eq!(hen.generates[0].weight, 0);
    let egg = &items[1];
    assert_eq!(egg.level, 1);
    assert_eq!(egg.generates_count, 1);
    assert_eq!(egg.max_generate_count, 0);
    assert_eq!(egg.auto_gen_interval_ms, 0);
    assert_eq!(egg.icon_path, None);
    let pot = &items[2];
    assert_eq!(pot.auto_gen_interval_ms, 1_500);
    assert_eq!(pot.generates_count, 2);
    assert!(pot.consumes_on_generate);
    assert_eq!(pot.max_generate_count, 9);
    assert_eq!(pot.bg_color, ("1".to_string(), "1".to_string(), "1".to_string()));
    let opts: Vec<(&str, u32)> =
        pot.generates.iter().map(|o| (o.item_id.as_str(), o.weight)).collect();
    assert_eq!(opts, vec![("coolTea_1", 3), ("riceBall_1", 1)]);
}

#[test]
fn duplicate_item_line_gets_no_outputs() {
    let mut s = items_csv();
    s.push_str("pot_4,Teapot,5,茶壶,,true,false,,,,1,1,1,1,false,0\n");
    let items = load_items(&s, &gens_csv());
    assert_eq!(items.len(), 4);
    assert_eq!(items[3].generates.len(), 0);
    let db = ItemDatabase::from_items(items);
    assert_eq!(db.get("pot_4").map(|d| d.level), Some(5));
}

#[test]
fn chain_check_finds_unknown_chain() {
    assert!(check_item_chains(&items_csv()));
    let bad = format!("{}x,Dragon,1,n,,false,false,,,,1,1,1,1,false,0\n", items_csv());
    assert!(!check_item_chains(&bad));
}

#[test]
fn database_from_tables() {
    let db = ItemDatabase::new(&items_csv(), &gens_csv());
    assert!(db.can_merge("egg_1", "egg_1"));
    assert!(!db.can_merge("pot_4", "pot_4"));
    assert_eq!(db.get("hen_6").map(|d| d.level), Some(6));
}

fn interval_of(field: &str) -> u64 {
    let mut s = String::from("h\nh\nh\n");
    s.push_str(&format!("hen_6,Poultry,6,老母鸡,,true,true,egg_1,{field},,0.5,0.5,0.5,1,false,0\n"));
    load_items(&s, "h\nh\nh\n")[0].auto_gen_interval_ms
}

#[test]
fn interval_never_comes_round_for_infinity_or_nan() {
    assert_eq!(interval_of("inf"), u64::MAX);
    assert_eq!(interval_of(" +Infinity "), u64::MAX);
    assert_eq!(interval_of("NaN"), u64::MAX);
    assert_eq!(interval_of("-nan"), u64::MAX);
}

#[test]
fn interval_negative_or_unreadable_is_zero() {
    assert_eq!(interval_of("-5"), 0);
    assert_eq!(interval_of("-inf"), 0);
    assert_eq!(interval_of("soon"), 0);
}

#[test]
fn interval_saturates_and_keeps_milliseconds() {
    assert_eq!(interval_of("99999999999999999999"), u64::MAX);
    assert_eq!(interval_of("0.25"), 250);
    assert_eq!(interval_of("2.0004"), 2_000);
}

#[test]
fn interval_reads_exponents() {
    assert_eq!(interval_of("3.6e3"), 3_600_000);
    assert_eq!(interval_of("36E+2"), 3_600_000);
    assert_eq!(interval_of("1500e-3"), 1_500);
    assert_eq!(interval_of("5e-4"), 0);
    assert_eq!(interval_of("1e30"), u64::MAX);
    assert_eq!(interval_of("1e"), 0);
    assert_eq!(interval_of(".5"), 500);
    assert_eq!(interval_of("2."), 2_000);
}
