//! Stamina, coins, gems and experience.  Time is counted in whole
//! milliseconds.
use vstd::prelude::*;

verus! {

/// Stamina cap restored by time and by a level-up.
pub const MAX_STAMINA: i32 = 100;

/// Time needed to recover one point of stamina (two minutes).
pub const STAMINA_RECOVERY_INTERVAL_MS: u64 = 120_000;

/// Experience needed for the first level-up.
pub const FIRST_LEVEL_EXP: u64 = 100;

/// The player's resources.
#[derive(Debug)]
pub struct Economy {
    pub stamina: i32,
    pub max_stamina: i32,
    pub coins: u64,
    pub gems: u32,
    /// Time accumulated towards the next stamina point, in milliseconds.
    pub stamina_timer_ms: u64,
    /// Player level.
    pub level: u32,
    /// Experience gathered on the current level.
    pub exp: u64,
    /// Experience needed for the next level.
    pub exp_to_next: u64,
}

/// Experience needed for the level after a level that needed `x`: 1.3 × `x`,
/// rounded down, saturating at the largest value the counter holds.
pub open spec fn next_exp_to_next(x: int) -> int {
    if x * 13 / 10 <= u64::MAX {
        x * 13 / 10
    } else {
        u64::MAX as int
    }
}

/// Stamina after recovering for `elapsed` milliseconds from `stamina`,
/// one point per interval, up to `max`.
pub open spec fn recovered(stamina: int, max: int, elapsed: int) -> int {
    if stamina + elapsed / (STAMINA_RECOVERY_INTERVAL_MS as int) < max {
        stamina + elapsed / (STAMINA_RECOVERY_INTERVAL_MS as int)
    } else {
        max
    }
}

impl Default for Economy {
    fn default() -> (e: Self)
        ensures
            e.stamina == MAX_STAMINA,
            e.max_stamina == MAX_STAMINA,
            e.coins == 0,
            e.gems == 0,
            e.stamina_timer_ms == 0,
            e.level == 1,
            e.exp == 0,
            e.exp_to_next == FIRST_LEVEL_EXP,
    {
        Economy {
            stamina: MAX_STAMINA,
            max_stamina: MAX_STAMINA,
            coins: 0,
            gems: 0,
            stamina_timer_ms: 0,
            level: 1,
            exp: 0,
            exp_to_next: FIRST_LEVEL_EXP,
        }
    }
}

impl Economy {
    /// Spends `amount` stamina when there is that much; returns whether it did.
    pub fn spend_stamina(&mut self, amount: i32) -> (r: bool)
        requires
            old(self).stamina >= amount ==> old(self).stamina - amount <= i32::MAX,
        ensures
            r == (old(self).stamina >= amount),
            r ==> final(self).stamina == old(self).stamina - amount,
            !r ==> final(self).stamina == old(self).stamina,
            final(self).max_stamina == old(self).max_stamina,
            final(self).coins == old(self).coins,
            final(self).gems == old(self).gems,
            final(self).stamina_timer_ms == old(self).stamina_timer_ms,
            final(self).level == old(self).level,
            final(self).exp == old(self).exp,
            final(self).exp_to_next == old(self).exp_to_next,
    {
        if self.stamina >= amount {
            self.stamina = self.stamina - amount;
            true
        } else {
            false
        }
    }

    /// Adds stamina without enforcing the cap (gourd tools, refunds).
    pub fn add_stamina_uncapped(&mut self, amount: i32)
        requires
            i32::MIN <= old(self).stamina + amount <= i32::MAX,
        ensures
            final(self).stamina == old(self).stamina + amount,
            final(self).max_stamina == old(self).max_stamina,
            final(self).coins == old(self).coins,
            final(self).gems == old(self).gems,
            final(self).stamina_timer_ms == old(self).stamina_timer_ms,
            final(self).level == old(self).level,
            final(self).exp == old(self).exp,
            final(self).exp_to_next == old(self).exp_to_next,
    {
        self.stamina = self.stamina + amount;
    }

    /// Adds coins.
    pub fn add_coins(&mut self, amount: u64)
        requires
            old(self).coins + amount <= u64::MAX,
        ensures
            final(self).coins == old(self).coins + amount,
            final(self).stamina == old(self).stamina,
            final(self).max_stamina == old(self).max_stamina,
            final(self).gems == old(self).gems,
            final(self).stamina_timer_ms == old(self).stamina_timer_ms,
            final(self).level == old(self).level,
            final(self).exp == old(self).exp,
            final(self).exp_to_next == old(self).exp_to_next,
    {
        self.coins = self.coins + amount;
    }

    /// Adds gems.
    pub fn add_gems(&mut self, amount: u32)
        requires
            old(self).gems + amount <= u32::MAX,
        ensures
            final(self).gems == old(self).gems + amount,
            final(self).stamina == old(self).stamina,
            final(self).max_stamina == old(self).max_stamina,
            final(self).coins == old(self).coins,
            final(self).stamina_timer_ms == old(self).stamina_timer_ms,
            final(self).level == old(self).level,
            final(self).exp == old(self).exp,
            final(self).exp_to_next == old(self).exp_to_next,
    {
        self.gems = self.gems + amount;
    }

    /// Adding up to `amount` experience stays within the counters' range.
    pub open spec fn exp_headroom(&self, amount: int) -> bool {
        &&& self.exp + amount <= u64::MAX
        &&& self.level < u32::MAX
    }

    /// Whether adding `amount` experience reaches the next level.
    pub open spec fn levels_up(&self, amount: int) -> bool {
        self.exp + amount >= self.exp_to_next
    }

    /// What adding `amount` experience does (see `add_exp`); `r` tells
    /// whether the level went up.
    pub open spec fn exp_post(&self, new: Economy, amount: int, r: bool) -> bool {
        &&& r == self.levels_up(amount)
        &&& r ==> {
            &&& new.exp == self.exp + amount - self.exp_to_next
            &&& new.level == self.level + 1
            &&& new.exp_to_next == next_exp_to_next(self.exp_to_next as int)
            &&& new.stamina == self.max_stamina
        }
        &&& !r ==> {
            &&& new.exp == self.exp + amount
            &&& new.level == self.level
            &&& new.exp_to_next == self.exp_to_next
            &&& new.stamina == self.stamina
        }
        &&& new.max_stamina == self.max_stamina
        &&& new.coins == self.coins
        &&& new.gems == self.gems
        &&& new.stamina_timer_ms == self.stamina_timer_ms
    }

    /// Adds experience; on reaching the threshold the player gains one
    /// level, keeps the surplus, needs 1.3 times as much for the next level
    /// and gets full stamina.  Returns whether the level went up.
    pub fn add_exp(&mut self, amount: u64) -> (r: bool)
        requires
            old(self).exp + amount <= u64::MAX,
            old(self).levels_up(amount as int) ==> old(self).level < u32::MAX,
        ensures
            old(self).exp_post(*final(self), amount as int, r),
    {
        self.exp = self.exp + amount;
        if self.exp >= self.exp_to_next {
            self.exp = self.exp - self.exp_to_next;
            self.level = self.level + 1;
            let x = self.exp_to_next;
            // 1.3 × x rounded down, saturating at the largest counter value
            assert(x / 10 * 13 + x % 10 * 13 / 10 == x * 13 / 10) by (nonlinear_arith);
            assert(x % 10 * 13 / 10 < 13) by (nonlinear_arith);
            self.exp_to_next = match (x / 10).checked_mul(13) {
                Some(tens) => match tens.checked_add(x % 10 * 13 / 10) {
                    Some(v) => v,
                    None => u64::MAX,
                },
                None => u64::MAX,
            };
            self.stamina = self.max_stamina;
            true
        } else {
            false
        }
    }

    /// Advances stamina recovery by `delta_ms` milliseconds.  Below the cap,
    /// one point is recovered per full interval (never beyond the cap) and
    /// the remainder is kept; at or above the cap the timer is reset.
    pub fn tick(&mut self, delta_ms: u64)
        requires
            old(self).stamina < old(self).max_stamina ==> old(self).stamina_timer_ms + delta_ms
                <= u64::MAX,
        ensures
            old(self).stamina < old(self).max_stamina ==> {
                &&& final(self).stamina == recovered(
                    old(self).stamina as int,
                    old(self).max_stamina as int,
                    old(self).stamina_timer_ms + delta_ms,
                )
                &&& final(self).stamina_timer_ms == (old(self).stamina_timer_ms + delta_ms)
                    % (STAMINA_RECOVERY_INTERVAL_MS as int)
            },
            old(self).stamina >= old(self).max_stamina ==> {
                &&& final(self).stamina == old(self).stamina
                &&& final(self).stamina_timer_ms == 0
            },
            final(self).max_stamina == old(self).max_stamina,
            final(self).coins == old(self).coins,
            final(self).gems == old(self).gems,
            final(self).level == old(self).level,
            final(self).exp == old(self).exp,
            final(self).exp_to_next == old(self).exp_to_next,
    {
        if self.stamina < self.max_stamina {
            let total = self.stamina_timer_ms + delta_ms;
            self.stamina_timer_ms = total;
            let ghost s0 = self.stamina as int;
            let ghost mut n: int = 0;
            while self.stamina_timer_ms >= STAMINA_RECOVERY_INTERVAL_MS
                invariant
                    s0 == old(self).stamina,
                    s0 < self.max_stamina,
                    self.max_stamina == old(self).max_stamina,
                    self.coins == old(self).coins,
                    self.gems == old(self).gems,
                    self.level == old(self).level,
                    self.exp == old(self).exp,
                    self.exp_to_next == old(self).exp_to_next,
                    total == old(self).stamina_timer_ms + delta_ms,
                    0 <= n,
                    self.stamina_timer_ms + n * STAMINA_RECOVERY_INTERVAL_MS == total,
                    self.stamina == (if s0 + n < self.max_stamina {
                        s0 + n
                    } else {
                        self.max_stamina as int
                    }),
                decreases self.stamina_timer_ms,
            {
                self.stamina_timer_ms = self.stamina_timer_ms - STAMINA_RECOVERY_INTERVAL_MS;
                self.stamina = if self.stamina < self.max_stamina {
                    self.stamina + 1
                } else {
                    self.max_stamina
                };
                proof {
                    n = n + 1;
                }
            }
            assert(n == (total as int) / 120000 && self.stamina_timer_ms == (total as int)
                % 120000) by (nonlinear_arith)
                requires
                    self.stamina_timer_ms + n * 120000 == total,
                    0 <= self.stamina_timer_ms < 120000,
                    0 <= n,
            ;
        } else {
            self.stamina_timer_ms = 0;
        }
    }
}


/// Recovery below the cap never passes the cap and never loses stamina.
pub proof fn law_recovery_bounded(stamina: int, max: int, elapsed: int)
    requires
        stamina < max,
        elapsed >= 0,
    ensures
        stamina <= recovered(stamina, max, elapsed) <= max,
{
}

/// Recovering over two spans in a row (the timer carrying the remainder
/// of the first span) gives the same stamina as recovering over both
/// spans at once.
pub proof fn law_recovery_additive(stamina: int, max: int, t0: int, d1: int, d2: int)
    requires
        stamina < max,
        t0 >= 0,
        d1 >= 0,
        d2 >= 0,
    ensures
        ({
            let s1 = recovered(stamina, max, t0 + d1);
            let r1 = (t0 + d1) % (STAMINA_RECOVERY_INTERVAL_MS as int);
            let s2 = if s1 < max {
                recovered(s1, max, r1 + d2)
            } else {
                s1
            };
            s2 == recovered(stamina, max, t0 + d1 + d2)
        }),
{
    let i = STAMINA_RECOVERY_INTERVAL_MS as int;
    let a = t0 + d1;
    assert(a / i + (a % i + d2) / i == (a + d2) / i) by (nonlinear_arith)
        requires
            i == 120000,
            a >= 0,
            d2 >= 0,
    {
        assert(a == (a / i) * i + a % i);
        assert(a + d2 == (a / i) * i + (a % i + d2));
        assert(0 <= a % i < i);
        assert((a + d2) / i == a / i + (a % i + d2) / i);
    }
    assert((a + d2) / i >= a / i) by (nonlinear_arith)
        requires
            i == 120000,
            a >= 0,
            d2 >= 0,
    ;
}

/// Spending stamina and adding the same amount back restores it exactly,
/// also above the cap.
pub proof fn law_spend_refund(e0: Economy, e1: Economy, e2: Economy, amount: i32)
    requires
        e0.stamina >= amount,
        e1.stamina == e0.stamina - amount,
        e2.stamina == e1.stamina + amount,
    ensures
        e2.stamina == e0.stamina,
{
}

} // verus!
