use bevy_hehe::audio::{bgm_path, decimal_string, has_code, merge_sfx_code, DEFAULT_BGM_PATH};
use bevy_hehe::config::AudioDef;

fn entry(code: &str, path: &str) -> AudioDef {
    AudioDef {
        audio_code: code.to_string(),
        audio_path: path.to_string(),
        description: String::new(),
    }
}

#[test]
fn decimal_writes_digits() {
    assert_eq!(decimal_string(0), "0");
    assert_eq!(decimal_string(7), "7");
    assert_eq!(decimal_string(120), "120");
    assert_eq!(decimal_string(u64::from(u32::MAX)), "4294967295");
    assert_eq!(decimal_string(u64::MAX), "18446744073709551615");
}

#[test]
fn merge_sound_falls_back_to_level_nine() {
    let defs = vec![entry("merge_lv3", "a.wav"), entry("merge_lv9", "b.wav")];
    assert_eq!(merge_sfx_code(&defs, 3).as_deref(), Some("merge_lv3"));
    assert_eq!(merge_sfx_code(&defs, 12).as_deref(), Some("merge_lv9"));
    assert_eq!(merge_sfx_code(&Vec::new(), 3), None);
    assert!(has_code(&defs, "merge_lv9"));
    assert!(!has_code(&defs, "merge_lv1"));
}

#[test]
fn bgm_path_uses_first_main_entry() {
    let defs = vec![entry("click", "c.wav"), entry("bgm_main", "m1.wav"), entry("bgm_main", "m2.wav")];
    assert_eq!(bgm_path(&defs), "m1.wav");
    assert_eq!(bgm_path(&Vec::new()), DEFAULT_BGM_PATH);
}
