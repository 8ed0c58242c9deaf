//! Choosing sound clips from the audio table.
use vstd::prelude::*;

use crate::config::AudioDef;
use crate::text::str_eq;

verus! {

/// Clip played as background music when the table has no `bgm_main` entry.
pub const DEFAULT_BGM_PATH: &'static str = "audio/bgm_SpringFestival_V1.wav";

/// Decimal digits of `n`, without leading zeros.
pub open spec fn decimal(n: nat) -> Seq<char>
    decreases n,
{
    if n < 10 {
        seq![(('0' as nat) + n) as char]
    } else {
        decimal(n / 10).push((('0' as nat) + n % 10) as char)
    }
}

/// Code of the merge sound for a merged piece of level `level`.
pub open spec fn merge_code(level: nat) -> Seq<char> {
    "merge_lv"@ + decimal(level)
}

/// Position of the last entry with code `code` at or before `m - 1`, or -1:
/// loading the table into a map keeps the last entry of each code.
pub open spec fn last_with_code(defs: Seq<AudioDef>, code: Seq<char>, m: int) -> int
    decreases m,
{
    if m <= 0 {
        -1
    } else if defs[m - 1].audio_code@ == code {
        m - 1
    } else {
        last_with_code(defs, code, m - 1)
    }
}

/// Position of the first entry with code `code` at or after `i`, or -1.
pub open spec fn first_with_code(defs: Seq<AudioDef>, code: Seq<char>, i: int) -> int
    decreases defs.len() - i,
{
    if i < 0 || i >= defs.len() {
        -1
    } else if defs[i].audio_code@ == code {
        i
    } else {
        first_with_code(defs, code, i + 1)
    }
}

/// Writes `n` in decimal.
pub fn decimal_string(n: u64) -> (s: String)
    ensures
        s@ == decimal(n as nat),
    decreases n,
{
    if n < 10 {
        let mut s = String::new();
        let c = char_of_digit(n as u32);
        s.push(c);
        assert(s@ =~= decimal(n as nat));
        s
    } else {
        let mut s = decimal_string(n / 10);
        let c = char_of_digit((n % 10) as u32);
        s.push(c);
        s
    }
}

/// The character of the decimal digit `d`.
fn char_of_digit(d: u32) -> (c: char)
    requires
        d < 10,
    ensures
        c == (('0' as nat) + d) as char,
{
    match d {
        0 => '0',
        1 => '1',
        2 => '2',
        3 => '3',
        4 => '4',
        5 => '5',
        6 => '6',
        7 => '7',
        8 => '8',
        _ => '9',
    }
}

/// Whether the table has an entry with code `code`.
pub fn has_code(defs: &Vec<AudioDef>, code: &str) -> (r: bool)
    ensures
        r == (last_with_code(defs@, code@, defs@.len() as int) >= 0),
{
    let mut m = defs.len();
    while m > 0
        invariant
            m <= defs@.len(),
            last_with_code(defs@, code@, defs@.len() as int) == last_with_code(
                defs@,
                code@,
                m as int,
            ),
        decreases m,
    {
        if str_eq(defs[m - 1].audio_code.as_str(), code) {
            return true;
        }
        m = m - 1;
    }
    false
}

/// Code of the sound to play when pieces merge into a piece of level
/// `result_level`: `merge_lv{level}` when the table has it, else
/// `merge_lv9` when the table has that, else nothing.
pub fn merge_sfx_code(defs: &Vec<AudioDef>, result_level: u32) -> (r: Option<String>)
    ensures
        last_with_code(defs@, merge_code(result_level as nat), defs@.len() as int) >= 0 ==> (r
            matches Some(c) && c@ == merge_code(result_level as nat)),
        last_with_code(defs@, merge_code(result_level as nat), defs@.len() as int) < 0
            && last_with_code(defs@, merge_code(9), defs@.len() as int) >= 0 ==> (r matches Some(c)
            && c@ == merge_code(9)),
        last_with_code(defs@, merge_code(result_level as nat), defs@.len() as int) < 0
            && last_with_code(defs@, merge_code(9), defs@.len() as int) < 0 ==> r is None,
{
    let mut code = "merge_lv".to_owned();
    let digits = decimal_string(result_level as u64);
    code.append(digits.as_str());
    if has_code(defs, code.as_str()) {
        return Some(code);
    }
    let mut fallback = "merge_lv".to_owned();
    let nine = decimal_string(9);
    fallback.append(nine.as_str());
    if has_code(defs, fallback.as_str()) {
        Some(fallback)
    } else {
        None
    }
}

/// Path of the background music: that of the first `bgm_main` entry, or
/// the default clip.
pub fn bgm_path(defs: &Vec<AudioDef>) -> (r: String)
    ensures
        first_with_code(defs@, "bgm_main"@, 0) >= 0 ==> r@ == defs@[first_with_code(
            defs@,
            "bgm_main"@,
            0,
        )].audio_path@,
        first_with_code(defs@, "bgm_main"@, 0) < 0 ==> r@ == DEFAULT_BGM_PATH@,
{
    let n = defs.len();
    let mut i: usize = 0;
    while i < n
        invariant
            n == defs@.len(),
            i <= n,
            first_with_code(defs@, "bgm_main"@, 0) == first_with_code(defs@, "bgm_main"@, i as int),
        decreases n - i,
    {
        if str_eq(defs[i].audio_code.as_str(), "bgm_main") {
            return defs[i].audio_path.clone();
        }
        i = i + 1;
    }
    DEFAULT_BGM_PATH.to_owned()
}

} // verus!
