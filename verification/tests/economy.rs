use bevy_hehe::economy::{Economy, MAX_STAMINA, STAMINA_RECOVERY_INTERVAL_MS};

fn economy_with_stamina(stamina: i32) -> Economy {
    let mut e = Economy::default();
    e.stamina = stamina;
    e
}

#[test]
fn recovery_adds_one_per_interval() {
    let mut e = economy_with_stamina(0);
    // One full interval → stamina goes from 0 to 1.
    e.tick(STAMINA_RECOVERY_INTERVAL_MS);
    assert_eq!(e.stamina, 1);
}

#[test]
fn recovery_caps_at_max_stamina() {
    let mut e = economy_with_stamina(MAX_STAMINA - 1);
    // Two intervals — second tick should not exceed max.
    e.tick(STAMINA_RECOVERY_INTERVAL_MS * 2);
    assert_eq!(e.stamina, MAX_STAMINA);
}

#[test]
fn recovery_does_not_tick_when_at_max() {
    let mut e = economy_with_stamina(MAX_STAMINA);
    e.tick(STAMINA_RECOVERY_INTERVAL_MS);
    // Already at cap — must not change.
    assert_eq!(e.stamina, MAX_STAMINA);
    // Timer must have been reset (not accumulated).
    assert_eq!(e.stamina_timer_ms, 0);
}

#[test]
fn uncapped_add_can_exceed_max_stamina() {
    let mut e = economy_with_stamina(MAX_STAMINA);
    e.add_stamina_uncapped(50);
    assert_eq!(e.stamina, MAX_STAMINA + 50);
}

#[test]
fn recovery_does_not_tick_when_above_max() {
    let mut e = economy_with_stamina(MAX_STAMINA + 50);
    e.tick(STAMINA_RECOVERY_INTERVAL_MS);
    // Above cap — must stay unchanged and timer stays reset.
    assert_eq!(e.stamina, MAX_STAMINA + 50);
    assert_eq!(e.stamina_timer_ms, 0);
}

#[test]
fn spend_stamina_succeeds_when_enough() {
    let mut e = economy_with_stamina(5);
    assert!(e.spend_stamina(3));
    assert_eq!(e.stamina, 2);
}

#[test]
fn spend_stamina_fails_when_insufficient() {
    let mut e = economy_with_stamina(2);
    assert!(!e.spend_stamina(3));
    assert_eq!(e.stamina, 2);
}

#[test]
fn refund_above_max_is_preserved() {
    // Player has 150 stamina (from Gourd), spends 1, then gets refunded.
    let mut e = economy_with_stamina(150);
    assert!(e.spend_stamina(1));
    assert_eq!(e.stamina, 149);
    // Refund should restore to 150, not clamp to 100.
    e.stamina += 1;
    assert_eq!(e.stamina, 150);
}

#[test]
fn default_economy_values() {
    let e = Economy::default();
    assert_eq!(e.stamina, 100);
    assert_eq!(e.max_stamina, 100);
    assert_eq!(e.coins, 0);
    assert_eq!(e.gems, 0);
    assert_eq!(e.level, 1);
    assert_eq!(e.exp, 0);
    assert_eq!(e.exp_to_next, 100);
}

#[test]
fn recovery_keeps_partial_interval() {
    let mut e = economy_with_stamina(10);
    e.tick(STAMINA_RECOVERY_INTERVAL_MS - 1);
    assert_eq!(e.stamina, 10);
    assert_eq!(e.stamina_timer_ms, STAMINA_RECOVERY_INTERVAL_MS - 1);
    e.tick(2);
    assert_eq!(e.stamina, 11);
    assert_eq!(e.stamina_timer_ms, 1);
}

#[test]
fn recovery_split_ticks_match_one_tick() {
    let mut a = economy_with_stamina(3);
    let mut b = economy_with_stamina(3);
    a.tick(90_000);
    a.tick(200_000);
    b.tick(290_000);
    assert_eq!(a.stamina, b.stamina);
    assert_eq!(a.stamina, 5);
    assert_eq!(a.stamina_timer_ms, b.stamina_timer_ms);
    assert_eq!(b.stamina_timer_ms, 50_000);
}

#[test]
fn add_exp_levels_up_and_refills_stamina() {
    let mut e = economy_with_stamina(7);
    assert!(!e.add_exp(60));
    assert_eq!(e.exp, 60);
    assert_eq!(e.stamina, 7);
    assert!(e.add_exp(50));
    assert_eq!(e.level, 2);
    assert_eq!(e.exp, 10);
    assert_eq!(e.exp_to_next, 130);
    assert_eq!(e.stamina, MAX_STAMINA);
}

#[test]
fn exp_threshold_grows_by_thirty_percent_rounded_down() {
    let mut e = Economy::default();
    let expected = [130u64, 169, 219, 284, 369, 479, 622, 808];
    for want in expected {
        let need = e.exp_to_next - e.exp;
        assert!(e.add_exp(need));
        assert_eq!(e.exp_to_next, want);
        assert_eq!(e.exp, 0);
    }
    assert_eq!(e.level, 9);
}

#[test]
fn coins_and_gems_accumulate() {
    let mut e = Economy::default();
    e.add_coins(30);
    e.add_coins(12);
    e.add_gems(5);
    assert_eq!(e.coins, 42);
    assert_eq!(e.gems, 5);
}

#[test]
fn next_threshold_saturates_at_the_counter_limit() {
    let mut e = Economy::default();
    e.exp_to_next = u64::MAX - 1;
    e.exp = u64::MAX - 1;
    assert!(e.add_exp(0));
    assert_eq!(e.exp, 0);
    assert_eq!(e.exp_to_next, u64::MAX);
}

#[test]
fn next_threshold_is_thirteen_tenths_rounded_down() {
    let mut e = Economy::default();
    e.exp_to_next = 101;
    assert!(e.add_exp(101));
    assert_eq!(e.exp_to_next, 131);
}
