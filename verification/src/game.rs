//! Game steps that combine the board, the economy, the orders and the
//! item database: periodic production of auto-generators, presses on a
//! cell, completed drags and order submission.
use vstd::prelude::*;

use crate::board::{adjacent_from, click_post, drag_post, empty_from, Board, ClickAction, BOARD_SIZE};
use crate::config::entries_view;
use crate::economy::Economy;
use crate::items::{opt_str_view, total_weight, ItemDatabase, ItemDef};
use crate::orders::{
    assign_cells, lemma_assign_cells, lemma_order_index, lemma_order_index_range, order_index_from, strings_view, without_id, Orders, MAX_ORDERS,
};

verus! {

/// How many finished products an auto-generator keeps in store.
pub const MAX_STORED_EGGS: u32 = 6;

/// Per-cell state of the auto-generators: time accumulated towards the
/// next product (milliseconds) and products waiting to be placed.
#[derive(Debug)]
pub struct AutoGenState {
    pub timers_ms: Vec<u64>,
    pub eggs: Vec<u32>,
}

/// Whether cell `i` holds a known auto-generator with a fixed output.
pub open spec fn is_auto_gen_cell(db: ItemDatabase, ids: Seq<Option<Seq<char>>>, i: int) -> bool {
    &&& ids[i] is Some
    &&& db.spec_get(ids[i]->Some_0) is Some
    &&& db.spec_get(ids[i]->Some_0)->Some_0.is_auto_generator
    &&& db.spec_get(ids[i]->Some_0)->Some_0.generates_id is Some
}

/// The definition of the piece in cell `i`.
pub open spec fn def_at(db: ItemDatabase, ids: Seq<Option<Seq<char>>>, i: int) -> ItemDef {
    db.spec_get(ids[i]->Some_0)->Some_0
}

/// The auto-generator cells among the first `n` cells, in board order.
pub open spec fn auto_gen_cells(db: ItemDatabase, ids: Seq<Option<Seq<char>>>, n: int) -> Seq<int>
    decreases n,
{
    if n <= 0 {
        Seq::empty()
    } else if is_auto_gen_cell(db, ids, n - 1) {
        auto_gen_cells(db, ids, n - 1).push(n - 1)
    } else {
        auto_gen_cells(db, ids, n - 1)
    }
}

/// Board contents, timers, stored products and the "board full" warning.
pub type TickState = (Seq<Option<Seq<char>>>, Seq<u64>, Seq<u32>, bool);

/// One auto-generator at cell `i`, producing `g` every `iv` milliseconds,
/// after `d` milliseconds: the timer advances; a full interval stores one
/// more product (at most six) and raises the warning when products wait on
/// a full board; then one stored product, if any, goes to the first empty
/// neighbour of the generator.
pub open spec fn gen_step(st: TickState, i: int, iv: int, g: Seq<char>, d: int) -> TickState {
    let (ids, timers, eggs, warn) = st;
    let acc = timers[i] + d;
    let fired = acc >= iv;
    let acc2 = if fired {
        acc - iv
    } else {
        acc
    };
    let e1 = if fired && eggs[i] < MAX_STORED_EGGS {
        eggs[i] + 1
    } else {
        eggs[i] as int
    };
    let warn2 = warn || (fired && e1 > 0 && empty_from(ids, 0) == -1);
    let t = adjacent_from(ids, i, 0);
    if e1 > 0 && t >= 0 {
        (ids.update(t, Some(g)), timers.update(i, acc2 as u64), eggs.update(i, (e1 - 1) as u32), warn2)
    } else {
        (ids, timers.update(i, acc2 as u64), eggs.update(i, e1 as u32), warn2)
    }
}

/// The generators `cells` (taken from the board `ids0`) stepped in order.
pub open spec fn tick_fold(
    db: ItemDatabase,
    ids0: Seq<Option<Seq<char>>>,
    cells: Seq<int>,
    st: TickState,
    d: int,
) -> TickState
    decreases cells.len(),
{
    if cells.len() == 0 {
        st
    } else {
        let i = cells.last();
        let def = def_at(db, ids0, i);
        gen_step(
            tick_fold(db, ids0, cells.drop_last(), st, d),
            i,
            def.auto_gen_interval_ms as int,
            def.generates_id->Some_0@,
            d,
        )
    }
}

pub proof fn lemma_auto_gen_cells(db: ItemDatabase, ids: Seq<Option<Seq<char>>>, n: int)
    ensures
        forall|k: int|
            0 <= k < auto_gen_cells(db, ids, n).len() ==> 0 <= #[trigger] auto_gen_cells(
                db,
                ids,
                n,
            )[k] < n && is_auto_gen_cell(db, ids, auto_gen_cells(db, ids, n)[k]),
        forall|k: int, l: int|
            0 <= k < l < auto_gen_cells(db, ids, n).len() ==> auto_gen_cells(db, ids, n)[k]
                < auto_gen_cells(db, ids, n)[l],
    decreases n,
{
    if n > 0 {
        lemma_auto_gen_cells(db, ids, n - 1);
        let prev = auto_gen_cells(db, ids, n - 1);
        if is_auto_gen_cell(db, ids, n - 1) {
            let cur = prev.push(n - 1);
            assert(auto_gen_cells(db, ids, n) == cur);
            assert forall|k: int| 0 <= k < cur.len() implies 0 <= #[trigger] cur[k] < n
                && is_auto_gen_cell(db, ids, cur[k]) by {
                if k < prev.len() {
                    assert(cur[k] == prev[k]);
                }
            }
            assert forall|k: int, l: int| 0 <= k < l < cur.len() implies cur[k] < cur[l] by {
                assert(cur[k] == prev[k]);
                if l < prev.len() {
                    assert(cur[l] == prev[l]);
                }
            }
        }
    }
}

impl AutoGenState {
    /// One timer and one store per board cell.
    pub open spec fn wf(&self) -> bool {
        &&& self.timers_ms@.len() == BOARD_SIZE
        &&& self.eggs@.len() == BOARD_SIZE
    }

    /// All timers at zero, nothing stored.
    pub fn new() -> (s: Self)
        ensures
            s.wf(),
            forall|i: int| 0 <= i < BOARD_SIZE ==> #[trigger] s.timers_ms@[i] == 0,
            forall|i: int| 0 <= i < BOARD_SIZE ==> #[trigger] s.eggs@[i] == 0,
    {
        let mut timers_ms: Vec<u64> = Vec::new();
        let mut eggs: Vec<u32> = Vec::new();
        let mut i: usize = 0;
        while i < BOARD_SIZE
            invariant
                i <= BOARD_SIZE,
                timers_ms@.len() == i,
                eggs@.len() == i,
                forall|j: int| 0 <= j < i ==> #[trigger] timers_ms@[j] == 0,
                forall|j: int| 0 <= j < i ==> #[trigger] eggs@[j] == 0,
            decreases BOARD_SIZE - i,
        {
            timers_ms.push(0);
            eggs.push(0);
            i = i + 1;
        }
        AutoGenState { timers_ms, eggs }
    }
}

/// The auto-generator cells of the board with their interval and output.
fn collect_auto_generators(board: &Board, db: &ItemDatabase) -> (r: Vec<(usize, u64, String)>)
    requires
        board.wf(),
    ensures
        r@.len() == auto_gen_cells(*db, board.ids(), BOARD_SIZE as int).len(),
        forall|k: int|
            0 <= k < r@.len() ==> {
                let i = auto_gen_cells(*db, board.ids(), BOARD_SIZE as int)[k];
                let def = def_at(*db, board.ids(), i);
                &&& (#[trigger] r@[k]).0 == i
                &&& r@[k].1 == def.auto_gen_interval_ms
                &&& r@[k].2@ == def.generates_id->Some_0@
            },
{
    let ghost ids = board.ids();
    let mut r: Vec<(usize, u64, String)> = Vec::new();
    let mut i: usize = 0;
    while i < BOARD_SIZE
        invariant
            board.wf(),
            ids == board.ids(),
            i <= BOARD_SIZE,
            r@.len() == auto_gen_cells(*db, ids, i as int).len(),
            forall|k: int|
                0 <= k < r@.len() ==> {
                    let c = auto_gen_cells(*db, ids, i as int)[k];
                    let def = def_at(*db, ids, c);
                    &&& (#[trigger] r@[k]).0 == c
                    &&& r@[k].1 == def.auto_gen_interval_ms
                    &&& r@[k].2@ == def.generates_id->Some_0@
                },
        decreases BOARD_SIZE - i,
    {
        if let Some(id) = &board.cells[i].item_id {
            assert(ids[i as int] == Some(id@));
            if let Some(def) = db.get(id.as_str()) {
                if def.is_auto_generator {
                    if let Some(g) = &def.generates_id {
                        r.push((i, def.auto_gen_interval_ms, g.clone()));
                    }
                }
            }
        }
        i = i + 1;
    }
    r
}

/// Advances every auto-generator of the board by `delta_ms` milliseconds
/// (see `gen_step`), in board order; the generators are those on the board
/// when the call starts.  Returns whether a product is waiting while the
/// board is full.
pub fn tick_auto_generators(
    board: &mut Board,
    db: &ItemDatabase,
    state: &mut AutoGenState,
    delta_ms: u64,
) -> (warn: bool)
    requires
        old(board).wf(),
        old(state).wf(),
        forall|i: int| 0 <= i < BOARD_SIZE ==> #[trigger] old(state).timers_ms@[i] + delta_ms <= u64::MAX,
    ensures
        final(board).wf(),
        final(state).wf(),
        final(board).selected == old(board).selected,
        final(board).dirty == (old(board).dirty || final(board).ids() != old(board).ids()),
        (final(board).ids(), final(state).timers_ms@, final(state).eggs@, warn) == tick_fold(
            *db,
            old(board).ids(),
            auto_gen_cells(*db, old(board).ids(), BOARD_SIZE as int),
            (old(board).ids(), old(state).timers_ms@, old(state).eggs@, false),
            delta_ms as int,
        ),
{
    let ghost ids0 = board.ids();
    let ghost cells = auto_gen_cells(*db, ids0, BOARD_SIZE as int);
    let ghost init: TickState = (ids0, state.timers_ms@, state.eggs@, false);
    let ghost timers0 = state.timers_ms@;
    let gens = collect_auto_generators(board, db);
    proof {
        lemma_auto_gen_cells(*db, ids0, BOARD_SIZE as int);
    }
    let mut warn = false;
    let mut k: usize = 0;
    assert(cells.take(0) =~= Seq::<int>::empty());
    while k < gens.len()
        invariant
            board.wf(),
            state.wf(),
            board.selected == old(board).selected,
            kept(ids0, board.ids()),
            board.dirty == (old(board).dirty || filled(ids0, board.ids())),
            gens@.len() == cells.len(),
            k <= gens@.len(),
            forall|m: int|
                0 <= m < gens@.len() ==> {
                    let i = cells[m];
                    let def = def_at(*db, ids0, i);
                    &&& (#[trigger] gens@[m]).0 == i
                    &&& gens@[m].1 == def.auto_gen_interval_ms
                    &&& gens@[m].2@ == def.generates_id->Some_0@
                },
            forall|m: int| 0 <= m < cells.len() ==> 0 <= #[trigger] cells[m] < BOARD_SIZE,
            forall|m: int, l: int| 0 <= m < l < cells.len() ==> cells[m] < cells[l],
            forall|j: int|
                0 <= j < BOARD_SIZE && (k == 0 || j > cells[k - 1]) ==> #[trigger] state.timers_ms@[j]
                    == timers0[j],
            forall|j: int| 0 <= j < BOARD_SIZE ==> #[trigger] timers0[j] + delta_ms <= u64::MAX,
            (board.ids(), state.timers_ms@, state.eggs@, warn) == tick_fold(
                *db,
                ids0,
                cells.take(k as int),
                init,
                delta_ms as int,
            ),
        decreases gens@.len() - k,
    {
        let (i, interval, ref gen_id) = gens[k];
        assert(cells.take(k + 1).drop_last() =~= cells.take(k as int));
        assert(cells.take(k + 1).last() == cells[k as int]);
        if k > 0 {
            assert(cells[k - 1] < cells[k as int]);
        }
        let ghost st = (board.ids(), state.timers_ms@, state.eggs@, warn);
        let acc = state.timers_ms[i] + delta_ms;
        let fired = acc >= interval;
        let acc2 = if fired {
            acc - interval
        } else {
            acc
        };
        let mut stored = state.eggs[i];
        if fired {
            if stored < MAX_STORED_EGGS {
                stored = stored + 1;
            }
            if stored > 0 && board.first_empty().is_none() {
                warn = true;
            }
        }
        state.timers_ms.set(i, acc2);
        let ghost e1 = stored;
        let ghost ids_before = board.ids();
        assert(ids_before == st.0);
        proof {
            crate::board::lemma_adjacent_from(ids_before, i as int, 0);
        }
        let ghost t = adjacent_from(ids_before, i as int, 0);
        if stored > 0 {
            match board.adjacent_empty(i) {
                Some(near) => {
                    proof {
                        lemma_fill_step(ids0, ids_before, near as int, gen_id@);
                    }
                    board.place(near, gen_id.as_str());
                    stored = stored - 1;
                    assert(board.ids() == ids_before.update(t, Some(gen_id@)));
                },
                None => {},
            }
        }
        state.eggs.set(i, stored);
        assert(state.timers_ms@ == st.1.update(i as int, acc2));
        assert(e1 == (if fired && st.2[i as int] < MAX_STORED_EGGS {
            st.2[i as int] + 1
        } else {
            st.2[i as int] as int
        }));
        assert((board.ids(), state.timers_ms@, state.eggs@, warn) == gen_step(
            st,
            i as int,
            interval as int,
            gen_id@,
            delta_ms as int,
        ));
        k = k + 1;
    }
    assert(cells.take(k as int) =~= cells);
    proof {
        lemma_filled_iff_changed(ids0, board.ids());
    }
    warn
}


/// Every piece of `ids0` is still in its cell in `ids`.
pub open spec fn kept(ids0: Seq<Option<Seq<char>>>, ids: Seq<Option<Seq<char>>>) -> bool {
    &&& ids.len() == ids0.len()
    &&& forall|j: int| 0 <= j < ids0.len() && ids0[j] is Some ==> #[trigger] ids[j] == ids0[j]
}

/// Some cell empty in `ids0` holds a piece in `ids`.
pub open spec fn filled(ids0: Seq<Option<Seq<char>>>, ids: Seq<Option<Seq<char>>>) -> bool {
    exists|j: int| 0 <= j < ids0.len() && ids0[j] is None && #[trigger] ids[j] is Some
}

/// When every piece is kept, the board changed exactly when an empty cell
/// was filled.
proof fn lemma_filled_iff_changed(ids0: Seq<Option<Seq<char>>>, ids: Seq<Option<Seq<char>>>)
    requires
        kept(ids0, ids),
    ensures
        filled(ids0, ids) <==> ids != ids0,
{
    if filled(ids0, ids) {
        let j = choose|j: int| 0 <= j < ids0.len() && ids0[j] is None && #[trigger] ids[j] is Some;
        assert(ids[j] != ids0[j]);
    } else {
        assert forall|j: int| 0 <= j < ids0.len() implies ids[j] == ids0[j] by {
            if ids0[j] is None {
                assert(!(ids[j] is Some));
            }
        }
        assert(ids =~= ids0);
    }
}

/// Putting a piece into an empty cell keeps every piece and fills a cell.
proof fn lemma_fill_step(ids0: Seq<Option<Seq<char>>>, ids: Seq<Option<Seq<char>>>, t: int, v: Seq<char>)
    requires
        kept(ids0, ids),
        0 <= t < ids.len(),
        ids[t] is None,
    ensures
        kept(ids0, ids.update(t, Some(v))),
        filled(ids0, ids.update(t, Some(v))),
{
    if ids0[t] is Some {
        assert(ids[t] == ids0[t]);
    }
    assert(ids.update(t, Some(v))[t] is Some);
    assert forall|j: int| 0 <= j < ids0.len() && ids0[j] is Some implies #[trigger] ids.update(
        t,
        Some(v),
    )[j] == ids0[j] by {
        assert(ids[j] == ids0[j]);
    }
}

/// Experience earned for a merge into `result`: ten per level of the
/// merged piece, nothing for an unknown piece.
pub open spec fn merge_exp(db: ItemDatabase, result: Seq<char>) -> int {
    match db.spec_get(result) {
        Some(def) => 10 * def.level,
        None => 0,
    }
}

/// The piece a generator output `g` turns into: in double-stamina mode one
/// level higher when it has a next level, otherwise `g` itself.
pub open spec fn upgraded(db: ItemDatabase, double: bool, g: Seq<char>) -> Seq<char> {
    if double && db.spec_get(g) is Some && db.spec_get(g)->Some_0.merge_result_id is Some {
        db.spec_merge_result(g)
    } else {
        g
    }
}

/// The pieces produced from the picks, in order (empty picks produce nothing).
pub open spec fn produced(db: ItemDatabase, double: bool, picks: Seq<Option<Seq<char>>>) -> Seq<
    Seq<char>,
>
    decreases picks.len(),
{
    if picks.len() == 0 {
        Seq::empty()
    } else {
        match picks.last() {
            Some(g) => produced(db, double, picks.drop_last()).push(upgraded(db, double, g)),
            None => produced(db, double, picks.drop_last()),
        }
    }
}

/// The board after placing `items` one after another near cell `src`
/// (see `near_target`), and how many of them found a cell.
pub open spec fn place_all(ids: Seq<Option<Seq<char>>>, src: int, items: Seq<Seq<char>>) -> (Seq<
    Option<Seq<char>>,
>, nat)
    decreases items.len(),
{
    if items.len() == 0 {
        (ids, 0)
    } else {
        let (ids1, n) = place_all(ids, src, items.drop_last());
        let t = crate::board::near_target(ids1, src);
        if t >= 0 {
            (ids1.update(t, Some(items.last())), n + 1)
        } else {
            (ids1, n)
        }
    }
}

/// The last of `items` that found a cell when placed one after another near
/// cell `src` (see `place_all`), if any did.
pub open spec fn last_placed(ids: Seq<Option<Seq<char>>>, src: int, items: Seq<Seq<char>>) -> Option<
    Seq<char>,
>
    decreases items.len(),
{
    if items.len() == 0 {
        None
    } else {
        let ids1 = place_all(ids, src, items.drop_last()).0;
        if crate::board::near_target(ids1, src) >= 0 {
            Some(items.last())
        } else {
            last_placed(ids, src, items.drop_last())
        }
    }
}

/// Stamina one activation of an ordinary generator costs.
pub open spec fn generation_cost(double: bool) -> int {
    if double {
        2
    } else {
        1
    }
}

/// A merge into a known piece earns ten experience per level of that piece.
pub proof fn law_merge_experience(db: ItemDatabase, result: Seq<char>, def: ItemDef)
    requires
        db.spec_get(result) == Some(def),
    ensures
        merge_exp(db, result) == 10 * def.level,
{
}

/// Merging the pieces `a` and `b`, if they merge, leaves the experience
/// counters of `e` room for the experience it earns.
pub open spec fn merge_room(db: ItemDatabase, e: Economy, a: Option<Seq<char>>, b: Option<Seq<char>>) -> bool {
    a is Some && b is Some && db.spec_can_merge(a->Some_0, b->Some_0) ==> e.exp_headroom(
        merge_exp(db, db.spec_merge_result(a->Some_0)),
    )
}

/// Whether merging the pieces `a` and `b` (when they merge) leaves the
/// experience counters of `economy` room for what the merge earns.
pub fn has_merge_room(db: &ItemDatabase, economy: &Economy, a: &Option<String>, b: &Option<String>) -> (r: bool)
    ensures
        r == merge_room(*db, *economy, opt_str_view(*a), opt_str_view(*b)),
{
    let (x, y) = match (a, b) {
        (Some(x), Some(y)) => (x, y),
        _ => return true,
    };
    if !db.can_merge(x.as_str(), y.as_str()) {
        return true;
    }
    let def = db.get(x.as_str()).unwrap();
    proof {
        db.lemma_get_in_table(x@);
    }
    let result = def.merge_result_id.as_ref().unwrap();
    let amount: u64 = match db.get(result.as_str()) {
        Some(r) => 10 * r.level as u64,
        None => 0,
    };
    economy.exp <= u64::MAX - amount && economy.level < u32::MAX
}

/// What activating a generator reports.
#[derive(Debug)]
pub enum GenerateOutcome {
    /// The activated piece is not in the database; nothing happens.
    Unknown,
    /// An auto-generator without a fixed output; nothing happens.
    NoOutput,
    /// An auto-generator placed one product; `from_storage` tells whether a
    /// stored product was used, `remaining` how many are still stored.
    EggPlaced { from_storage: bool, remaining: u32 },
    /// An auto-generator found no cell for its product.
    EggBoardFull,
    /// Not enough stamina for an ordinary generator.
    NotEnoughStamina,
    /// Nothing could be placed; the stamina was refunded.
    BoardFull,
    /// `placed` pieces were placed, the last of them being `last`.
    Generated { placed: u32, last: String },
}

/// What activating the generator `item` (selected in cell `idx`) does,
/// given the outputs `picks` drawn for an ordinary generator.
pub open spec fn activation_post(
    db: ItemDatabase,
    item: Seq<char>,
    idx: int,
    double: bool,
    picks: Seq<Option<Seq<char>>>,
    old_board: Board,
    new_board: Board,
    old_econ: Economy,
    new_econ: Economy,
    old_eggs: Seq<u32>,
    new_eggs: Seq<u32>,
    r: GenerateOutcome,
) -> bool {
    let ids = old_board.ids();
    &&& new_board.selected == old_board.selected
    &&& old_board.dirty || new_board.ids() != ids ==> new_board.dirty
    &&& ids[idx] is Some ==> new_board.dirty == (old_board.dirty || new_board.ids() != ids)
    &&& new_econ.max_stamina == old_econ.max_stamina
    &&& new_econ.coins == old_econ.coins
    &&& new_econ.gems == old_econ.gems
    &&& new_econ.level == old_econ.level
    &&& new_econ.exp == old_econ.exp
    &&& new_econ.exp_to_next == old_econ.exp_to_next
    &&& new_econ.stamina_timer_ms == old_econ.stamina_timer_ms
    &&& match db.spec_get(item) {
        None => {
            &&& r is Unknown
            &&& new_board.ids() == ids
            &&& new_econ.stamina == old_econ.stamina
            &&& new_eggs == old_eggs
        },
        Some(def) => if def.is_auto_generator {
            &&& new_econ.stamina == old_econ.stamina
            &&& match def.generates_id {
                None => r is NoOutput && new_board.ids() == ids && new_eggs == old_eggs,
                Some(g) => {
                    let t = crate::board::near_target(ids, idx);
                    if t >= 0 {
                        &&& new_board.ids() == ids.update(t, Some(g@))
                        &&& if old_eggs[idx] > 0 {
                            &&& new_eggs == old_eggs.update(idx, (old_eggs[idx] - 1) as u32)
                            &&& r == GenerateOutcome::EggPlaced {
                                from_storage: true,
                                remaining: (old_eggs[idx] - 1) as u32,
                            }
                        } else {
                            &&& new_eggs == old_eggs
                            &&& r == GenerateOutcome::EggPlaced { from_storage: false, remaining: 0 }
                        }
                    } else {
                        r is EggBoardFull && new_board.ids() == ids && new_eggs == old_eggs
                    }
                },
            }
        } else if def.is_generator {
            let cost = generation_cost(double);
            &&& new_eggs == old_eggs
            &&& if old_econ.stamina >= cost {
                let (placed_ids, n) = place_all(ids, idx, produced(db, double, picks));
                if n == 0 {
                    &&& r is BoardFull
                    &&& new_board.ids() == ids
                    &&& new_econ.stamina == old_econ.stamina
                } else {
                    &&& new_board.ids() == (if def.consumes_on_generate {
                        placed_ids.update(idx, None)
                    } else {
                        placed_ids
                    })
                    &&& new_econ.stamina == old_econ.stamina - cost
                    &&& r matches GenerateOutcome::Generated { placed, last } && placed == n
                        && last_placed(ids, idx, produced(db, double, picks)) == Some(last@)
                }
            } else {
                &&& r is NotEnoughStamina
                &&& new_board.ids() == ids
                &&& new_econ.stamina == old_econ.stamina
            }
        } else {
            &&& r is Unknown
            &&& new_board.ids() == ids
            &&& new_econ.stamina == old_econ.stamina
            &&& new_eggs == old_eggs
        },
    }
}

/// When no cell is free near `src`, placing pieces changes nothing.
proof fn lemma_place_all_full(ids: Seq<Option<Seq<char>>>, src: int, items: Seq<Seq<char>>)
    requires
        crate::board::near_target(ids, src) < 0,
    ensures
        place_all(ids, src, items) == (ids, 0nat),
    decreases items.len(),
{
    if items.len() > 0 {
        lemma_place_all_full(ids, src, items.drop_last());
    }
}

/// Placing pieces without placing any leaves the board as it was.
proof fn lemma_place_all_zero(ids: Seq<Option<Seq<char>>>, src: int, items: Seq<Seq<char>>)
    ensures
        place_all(ids, src, items).1 == 0 ==> place_all(ids, src, items).0 == ids,
    decreases items.len(),
{
    if items.len() > 0 {
        lemma_place_all_zero(ids, src, items.drop_last());
    }
}

/// Places the pieces produced from `picks` near `idx`; returns the
/// number placed and the last piece placed.
fn place_produced(
    board: &mut Board,
    db: &ItemDatabase,
    idx: usize,
    double: bool,
    picks: &Vec<Option<String>>,
) -> (r: (u32, Option<String>))
    requires
        old(board).wf(),
        idx < BOARD_SIZE,
        picks@.len() <= u32::MAX,
    ensures
        final(board).wf(),
        final(board).selected == old(board).selected,
        final(board).dirty == (old(board).dirty || r.0 > 0),
        kept(old(board).ids(), final(board).ids()),
        r.0 > 0 ==> filled(old(board).ids(), final(board).ids()),
        (final(board).ids(), r.0 as nat) == place_all(
            old(board).ids(),
            idx as int,
            produced(*db, double, crate::orders::cells_view(picks@)),
        ),
        r.0 > 0 ==> r.1 is Some,
        opt_str_view(r.1) == last_placed(
            old(board).ids(),
            idx as int,
            produced(*db, double, crate::orders::cells_view(picks@)),
        ),
{
    let ghost ids0 = board.ids();
    let ghost pv = crate::orders::cells_view(picks@);
    let mut placed: u32 = 0;
    let mut last: Option<String> = None;
    let mut k: usize = 0;
    assert(pv.take(0) =~= Seq::<Option<Seq<char>>>::empty());
    while k < picks.len()
        invariant
            board.wf(),
            board.selected == old(board).selected,
            board.dirty == (old(board).dirty || placed > 0),
            kept(ids0, board.ids()),
            placed > 0 ==> filled(ids0, board.ids()),
            idx < BOARD_SIZE,
            pv == crate::orders::cells_view(picks@),
            picks@.len() <= u32::MAX,
            k <= picks@.len(),
            placed <= k,
            (board.ids(), placed as nat) == place_all(ids0, idx as int, produced(*db, double, pv.take(k as int))),
            placed > 0 ==> last is Some,
            opt_str_view(last) == last_placed(ids0, idx as int, produced(*db, double, pv.take(k as int))),
        decreases picks@.len() - k,
    {
        assert(pv.take(k + 1).drop_last() =~= pv.take(k as int));
        assert(pv.take(k + 1).last() == pv[k as int]);
        let ghost items = produced(*db, double, pv.take(k as int));
        if let Some(gen_id) = &picks[k] {
            let actual: String = if double {
                match db.get(gen_id.as_str()) {
                    Some(def) => match &def.merge_result_id {
                        Some(m) => m.clone(),
                        None => gen_id.clone(),
                    },
                    None => gen_id.clone(),
                }
            } else {
                gen_id.clone()
            };
            assert(actual@ == upgraded(*db, double, gen_id@));
            assert(produced(*db, double, pv.take(k + 1)) == items.push(actual@));
            assert(items.push(actual@).drop_last() =~= items);
            let ghost before = board.ids();
            proof {
                crate::board::lemma_adjacent_from(before, idx as int, 0);
                crate::board::lemma_empty_from(before, 0);
                let t = crate::board::near_target(before, idx as int);
                if t >= 0 {
                    lemma_fill_step(ids0, before, t, actual@);
                }
            }
            if board.place_near(idx, actual.as_str()) {
                placed = placed + 1;
                last = Some(actual);
            }
        }
        k = k + 1;
    }
    assert(pv.take(k as int) =~= pv);
    (placed, last)
}

/// Activates the generator `item_id` selected in cell `idx`, the outputs
/// of an ordinary generator being `picks`.  An auto-generator places one
/// product near itself for free, taking it from its store when one is
/// stored.  An ordinary generator costs one stamina (two in double mode,
/// where every product is one level higher); its products go near it, the
/// stamina is refunded when none found a cell, and a consumable generator
/// disappears after producing.
pub fn activate_generator_with(
    board: &mut Board,
    economy: &mut Economy,
    state: &mut AutoGenState,
    db: &ItemDatabase,
    idx: usize,
    item_id: &str,
    double: bool,
    picks: &Vec<Option<String>>,
) -> (r: GenerateOutcome)
    requires
        old(board).wf(),
        old(state).wf(),
        idx < BOARD_SIZE,
        picks@.len() <= u32::MAX,
    ensures
        final(board).wf(),
        final(state).wf(),
        final(state).timers_ms == old(state).timers_ms,
        activation_post(
            *db,
            item_id@,
            idx as int,
            double,
            crate::orders::cells_view(picks@),
            *old(board),
            *final(board),
            *old(economy),
            *final(economy),
            old(state).eggs@,
            final(state).eggs@,
            r,
        ),
{
    let item = match db.get(item_id) {
        Some(d) => d,
        None => return GenerateOutcome::Unknown,
    };
    if item.is_auto_generator {
        match &item.generates_id {
            Some(gen_id) => {
                let ghost ids0 = board.ids();
                proof {
                    crate::board::lemma_adjacent_from(ids0, idx as int, 0);
                    crate::board::lemma_empty_from(ids0, 0);
                }
                if board.place_near(idx, gen_id.as_str()) {
                    assert(board.ids()[crate::board::near_target(ids0, idx as int)] != ids0[crate::board::near_target(ids0, idx as int)]);
                    let pending = state.eggs[idx];
                    if pending > 0 {
                        state.eggs.set(idx, pending - 1);
                        GenerateOutcome::EggPlaced { from_storage: true, remaining: pending - 1 }
                    } else {
                        GenerateOutcome::EggPlaced { from_storage: false, remaining: 0 }
                    }
                } else {
                    GenerateOutcome::EggBoardFull
                }
            },
            None => GenerateOutcome::NoOutput,
        }
    } else if item.is_generator {
        let cost: i32 = if double {
            2
        } else {
            1
        };
        if economy.spend_stamina(cost) {
            let ghost ids0 = board.ids();
            let (placed, last) = place_produced(board, db, idx, double, picks);
            proof {
                lemma_place_all_zero(ids0, idx as int, produced(*db, double, crate::orders::cells_view(picks@)));
            }
            if placed == 0 {
                // Nothing placed: refund the stamina in full
                economy.add_stamina_uncapped(cost);
                assert(board.ids() == ids0);
                GenerateOutcome::BoardFull
            } else {
                proof {
                    lemma_filled_iff_changed(ids0, board.ids());
                }
                if item.consumes_on_generate {
                    let ghost before = board.ids();
                    let taken = board.take(idx);
                    proof {
                        if taken is None {
                            assert(board.ids() =~= before);
                        }
                        if ids0[idx as int] is Some {
                            assert(before[idx as int] == ids0[idx as int]);
                            assert(board.ids()[idx as int] != ids0[idx as int]);
                        }
                    }
                }
                match last {
                    Some(l) => GenerateOutcome::Generated { placed, last: l },
                    None => GenerateOutcome::Generated { placed, last: String::new() },
                }
            }
        } else {
            GenerateOutcome::NotEnoughStamina
        }
    } else {
        GenerateOutcome::Unknown
    }
}


/// Whether `p` is an output a generator `def` can draw: a positively
/// weighted entry of its table, or its fixed output when the table carries
/// no weight.
pub open spec fn possible_pick(def: ItemDef, p: Option<Seq<char>>) -> bool {
    if total_weight(def.generates@) == 0 {
        p == opt_str_view(def.generates_id)
    } else {
        exists|k: int|
            0 <= k < def.generates@.len() && def.generates@[k].weight > 0 && p == Some(
                (#[trigger] def.generates@[k]).item_id@,
            )
    }
}

/// How many outputs an activation of `def` draws: its production count,
/// at least one.
pub open spec fn draw_count(def: ItemDef) -> int {
    if def.generates_count == 0 {
        1
    } else {
        def.generates_count as int
    }
}

/// Activates the generator `item_id` selected in cell `idx` (see
/// `activate_generator_with`), drawing the outputs of an ordinary generator
/// at random from its table.
pub fn activate_generator(
    board: &mut Board,
    economy: &mut Economy,
    state: &mut AutoGenState,
    db: &ItemDatabase,
    idx: usize,
    item_id: &str,
    double: bool,
) -> (r: GenerateOutcome)
    requires
        old(board).wf(),
        old(state).wf(),
        idx < BOARD_SIZE,
        db.spec_weights_fit(),
    ensures
        final(board).wf(),
        final(state).wf(),
        final(state).timers_ms == old(state).timers_ms,
        exists|picks: Seq<Option<Seq<char>>>|
            #![trigger activation_post(*db, item_id@, idx as int, double, picks, *old(board), *final(board), *old(economy), *final(economy), old(state).eggs@, final(state).eggs@, r)]
            {
                &&& (db.spec_get(item_id@) matches Some(def) ==> forall|k: int|
                    0 <= k < picks.len() ==> possible_pick(def, #[trigger] picks[k]))
                &&& (db.spec_get(item_id@) matches Some(def) ==> (!def.is_auto_generator && def.is_generator ==> picks.len()
                    == draw_count(def)))
                &&& activation_post(
                    *db,
                    item_id@,
                    idx as int,
                    double,
                    picks,
                    *old(board),
                    *final(board),
                    *old(economy),
                    *final(economy),
                    old(state).eggs@,
                    final(state).eggs@,
                    r,
                )
            },
{
    let mut picks: Vec<Option<String>> = Vec::new();
    if let Some(def) = db.get(item_id) {
        proof {
            db.lemma_get_in_table(item_id@);
        }
        if !def.is_auto_generator && def.is_generator {
            let count: u32 = if def.generates_count == 0 {
                1
            } else {
                def.generates_count
            };
            let mut k: u32 = 0;
            while k < count
                invariant
                    db.spec_weights_fit(),
                    total_weight(def.generates@) <= u64::MAX,
                    k <= count,
                    picks@.len() == k,
                    forall|j: int|
                        0 <= j < k ==> possible_pick(
                            *def,
                            #[trigger] crate::orders::cells_view(picks@)[j],
                        ),
                decreases count - k,
            {
                let p = def.pick_generated_item();
                proof {
                    crate::items::lemma_total_weight_nonneg(def.generates@);
                    if total_weight(def.generates@) > 0 {
                        let w = choose|w: int|
                            0 <= w < def.generates@.len() && def.generates@[w].weight > 0 && p
                                == Some(#[trigger] def.generates@[w].item_id);
                        assert(opt_str_view(p) == Some(def.generates@[w].item_id@));
                        assert(0 <= w < def.generates@.len() && def.generates@[w].weight > 0);
                    } else {
                        assert(opt_str_view(p) == opt_str_view(def.generates_id));
                    }
                    assert(possible_pick(*def, opt_str_view(p)));
                }
                let ghost before = crate::orders::cells_view(picks@);
                picks.push(p);
                assert(crate::orders::cells_view(picks@) =~= before.push(opt_str_view(p)));
                k = k + 1;
            }
        }
    }
    activate_generator_with(board, economy, state, db, idx, item_id, double, &picks)
}

/// A press on cell `idx`: the click rule of the board (see `click_post`),
/// then the experience for a merge (ten per level of the merged piece) or
/// the activation of a generator (see `activate_generator`).
pub fn press_cell(
    board: &mut Board,
    economy: &mut Economy,
    state: &mut AutoGenState,
    db: &ItemDatabase,
    idx: usize,
    double: bool,
) -> (r: (ClickAction, Option<GenerateOutcome>))
    requires
        old(board).wf(),
        old(state).wf(),
        idx < BOARD_SIZE,
        db.spec_weights_fit(),
        old(board).selected is Some && old(board).selected->Some_0 != idx ==> merge_room(
            *db,
            *old(economy),
            old(board).ids()[old(board).selected->Some_0 as int],
            old(board).ids()[idx as int],
        ),
    ensures
        (match r.0 {
            ClickAction::Merged { result, .. } => db.spec_get(result@) is Some ==> exists|up: bool|
                #[trigger] old(economy).exp_post(*final(economy), 10 * db.spec_get(result@)->Some_0.level, up),
            _ => true,
        }),
        final(board).wf(),
        final(state).wf(),
        final(state).timers_ms == old(state).timers_ms,
        exists|mid: Board|
            #![trigger click_post(*db, *old(board), mid, idx as int, r.0)]
            {
                &&& click_post(*db, *old(board), mid, idx as int, r.0)
                &&& match r.0 {
                    ClickAction::Merged { result, .. } => {
                        &&& *final(board) == mid
                        &&& r.1 is None
                        &&& final(state).eggs@ == old(state).eggs@
                        &&& if db.spec_get(result@) is Some {
                            exists|up: bool|
                                old(economy).exp_post(
                                    *final(economy),
                                    merge_exp(*db, result@),
                                    up,
                                )
                        } else {
                            *final(economy) == *old(economy)
                        }
                    },
                    ClickAction::GeneratorActivated(i, id) => exists|
                        picks: Seq<Option<Seq<char>>>,
                        g: GenerateOutcome,
                    |
                        #![trigger activation_post(*db, id@, i as int, double, picks, mid, *final(board), *old(economy), *final(economy), old(state).eggs@, final(state).eggs@, g)]
                        {
                            &&& r.1 == Some(g)
                            &&& (db.spec_get(id@) matches Some(def) ==> forall|k: int|
                                0 <= k < picks.len() ==> possible_pick(def, #[trigger] picks[k]))
                            &&& (db.spec_get(id@) matches Some(def) ==> (!def.is_auto_generator && def.is_generator ==> picks.len()
                    == draw_count(def)))
                            &&& activation_post(
                                *db,
                                id@,
                                i as int,
                                double,
                                picks,
                                mid,
                                *final(board),
                                *old(economy),
                                *final(economy),
                                old(state).eggs@,
                                final(state).eggs@,
                                g,
                            )
                        },
                    _ => {
                        &&& *final(board) == mid
                        &&& r.1 is None
                        &&& *final(economy) == *old(economy)
                        &&& final(state).eggs@ == old(state).eggs@
                    },
                }
            },
{
    let action = board.handle_click(idx, db);
    let ghost mid = *board;
    let mut up = false;
    let outcome = match &action {
        ClickAction::Merged { result, .. } => {
            if let Some(item) = db.get(result.as_str()) {
                up = economy.add_exp(10 * item.level as u64);
                assert(old(economy).exp_post(*economy, merge_exp(*db, result@), up));
            }
            None
        },
        ClickAction::GeneratorActivated(i, id) => {
            let g = activate_generator(board, economy, state, db, *i, id.as_str(), double);
            Some(g)
        },
        _ => None,
    };
    assert(click_post(*db, *old(board), mid, idx as int, action));
    proof {
        match &action {
            ClickAction::Merged { result, .. } => {
                assert(*board == mid);
                assert(outcome is None);
                assert(state.eggs@ == old(state).eggs@);
                if db.spec_get(result@) is Some {
                    assert(exists|up: bool| old(economy).exp_post(*economy, merge_exp(*db, result@), up));
                } else {
                    assert(*economy == *old(economy));
                }
            },
            ClickAction::GeneratorActivated(i, id) => {
                let g = outcome->Some_0;
                let picks = choose|picks: Seq<Option<Seq<char>>>|
                    #![trigger activation_post(*db, id@, *i as int, double, picks, mid, *board, *old(economy), *economy, old(state).eggs@, state.eggs@, g)]
                    {
                        &&& (db.spec_get(id@) matches Some(def) ==> forall|k: int|
                            0 <= k < picks.len() ==> possible_pick(def, #[trigger] picks[k]))
                        &&& (db.spec_get(id@) matches Some(def) ==> (!def.is_auto_generator
                            && def.is_generator ==> picks.len() == draw_count(def)))
                        &&& activation_post(*db, id@, *i as int, double, picks, mid, *board, *old(economy), *economy, old(state).eggs@, state.eggs@, g)
                    };
                assert(activation_post(*db, id@, *i as int, double, picks, mid, *board, *old(economy), *economy, old(state).eggs@, state.eggs@, g));
                assert(outcome == Some(g));
            },
            _ => {
                assert(*board == mid);
                assert(*economy == *old(economy));
                assert(state.eggs@ == old(state).eggs@);
            },
        }
    }
    let r = (action, outcome);
    assert(click_post(*db, *old(board), mid, idx as int, r.0));
    r
}

/// A drag released on cell `tgt` after starting on cell `src`: nothing when
/// both are the same cell, otherwise the drag rule of the board (see
/// `drag_post`) and the experience for a merge.
pub fn complete_drag(
    board: &mut Board,
    economy: &mut Economy,
    db: &ItemDatabase,
    src: usize,
    tgt: usize,
) -> (r: ClickAction)
    requires
        old(board).wf(),
        src < BOARD_SIZE,
        tgt < BOARD_SIZE,
        src != tgt ==> merge_room(
            *db,
            *old(economy),
            old(board).ids()[src as int],
            old(board).ids()[tgt as int],
        ),
    ensures
        (match r {
            ClickAction::Merged { result, .. } => db.spec_get(result@) is Some ==> exists|up: bool|
                #[trigger] old(economy).exp_post(*final(economy), 10 * db.spec_get(result@)->Some_0.level, up),
            _ => true,
        }),
        final(board).wf(),
        src == tgt ==> r is Nothing && *final(board) == *old(board) && *final(economy) == *old(economy),
        src != tgt ==> drag_post(*db, *old(board), *final(board), src as int, tgt as int, r),
        src != tgt ==> match r {
            ClickAction::Merged { result, .. } => if db.spec_get(result@) is Some {
                exists|up: bool| old(economy).exp_post(*final(economy), merge_exp(*db, result@), up)
            } else {
                *final(economy) == *old(economy)
            },
            _ => *final(economy) == *old(economy),
        },
{
    if src == tgt {
        return ClickAction::Nothing;
    }
    let action = board.handle_drag(src, tgt, db);
    let mut up = false;
    if let ClickAction::Merged { result, .. } = &action {
        if let Some(item) = db.get(result.as_str()) {
            up = economy.add_exp(10 * item.level as u64);
            assert(old(economy).exp_post(*economy, merge_exp(*db, result@), up));
        }
    }
    action
}

/// The board contents with the cells `used` emptied.
pub open spec fn cleared(ids: Seq<Option<Seq<char>>>, used: Seq<usize>) -> Seq<Option<Seq<char>>> {
    Seq::new(ids.len(), |i: int| if used.contains(i as usize) { None } else { ids[i] })
}

/// Submits the order shown in slot `slot`: when the board holds its items
/// (see `Orders::fulfill_post`) their cells are emptied, the reward is paid,
/// fifty experience is earned and the panel is topped up; the reward is
/// returned.  Otherwise nothing changes.
pub fn submit_order(
    board: &mut Board,
    economy: &mut Economy,
    orders: &mut Orders,
    db: &ItemDatabase,
    slot: usize,
) -> (r: Option<u64>)
    requires
        old(board).wf(),
        slot < old(orders).orders@.len() ==> {
            let k = order_index_from(old(orders).orders@, old(orders).orders@[slot as int].id, 0);
            assign_cells(old(board).ids(), strings_view(old(orders).orders@[k].items@)) is Some ==> {
                &&& old(orders).next_id + MAX_ORDERS <= u32::MAX
                &&& old(economy).coins + old(orders).orders@[k].coin_reward <= u64::MAX
                &&& old(economy).exp_headroom(50)
            }
        },
    ensures
        final(board).wf(),
        final(board).selected == old(board).selected,
        final(board).dirty == (old(board).dirty || final(board).ids() != old(board).ids()),
        slot >= old(orders).orders@.len() ==> r is None && *final(board) == *old(board) && *final(economy) == *old(economy) && *final(orders) == *old(orders),
        slot < old(orders).orders@.len() ==> {
            let id = old(orders).orders@[slot as int].id;
            let k = order_index_from(old(orders).orders@, id, 0);
            let req = strings_view(old(orders).orders@[k].items@);
            match assign_cells(old(board).ids(), req) {
                None => r is None && *final(board) == *old(board) && *final(economy) == *old(economy)
                    && final(orders).orders@ == old(orders).orders@ && final(orders).next_id == old(
                    orders,
                ).next_id && final(orders).templates == old(orders).templates,
                Some(used) => exists|mid: Orders|
                    #![trigger mid.fill_post(*final(orders), *db)]
                    {
                        let reward = old(orders).orders@[k].coin_reward;
                        &&& r == Some(reward)
                        &&& final(board).ids() == cleared(old(board).ids(), used)
                        &&& mid.orders@ == without_id(old(orders).orders@, id)
                        &&& mid.next_id == old(orders).next_id
                        &&& mid.templates == old(orders).templates
                        &&& mid.fill_post(*final(orders), *db)
                        &&& exists|e: Economy, up: bool|
                            #![trigger e.exp_post(*final(economy), 50, up)]
                            e.coins == old(economy).coins + reward && e.exp == old(economy).exp
                                && e.level == old(economy).level && e.exp_to_next == old(economy).exp_to_next
                                && e.stamina == old(economy).stamina && e.max_stamina
                                == old(economy).max_stamina && e.gems == old(economy).gems
                                && e.stamina_timer_ms == old(economy).stamina_timer_ms
                                && e.exp_post(*final(economy), 50, up)
                    },
            }
        },
{
    if slot >= orders.orders.len() {
        return None;
    }
    let order_id = orders.orders[slot].id;
    proof {
        lemma_order_index(old(orders).orders@, order_id, slot as int);
    }
    let mut board_items: Vec<Option<String>> = Vec::new();
    let mut i: usize = 0;
    while i < board.cells.len()
        invariant
            board.wf(),
            board == old(board),
            i <= board.cells@.len(),
            board_items@.len() == i,
            forall|j: int| 0 <= j < i ==> #[trigger] crate::orders::cells_view(board_items@)[j] == board.ids()[j],
        decreases board.cells@.len() - i,
    {
        let item = board.item_at(i);
        let ghost before = crate::orders::cells_view(board_items@);
        board_items.push(item);
        assert(crate::orders::cells_view(board_items@) =~= before.push(opt_str_view(item)));
        i = i + 1;
    }
    assert(crate::orders::cells_view(board_items@) =~= board.ids());
    let ghost k = order_index_from(old(orders).orders@, order_id, 0);
    proof {
        lemma_order_index_range(old(orders).orders@, order_id, 0);
    }
    match orders.try_fulfill(order_id, board_items.as_slice()) {
        Some((reward, cells)) => {
            let ghost used = cells@;
            proof {
                lemma_assign_cells(board.ids(), strings_view(old(orders).orders@[k].items@));
            }
            let mut c: usize = 0;
            while c < cells.len()
                invariant
                    board.wf(),
                    board.selected == old(board).selected,
                    used == cells@,
                    forall|m: int| 0 <= m < used.len() ==> (#[trigger] used[m]) < BOARD_SIZE,
                    c <= used.len(),
                    board.ids() == cleared(old(board).ids(), used.take(c as int)),
                    board.dirty == (old(board).dirty || c > 0),
                    old(board).wf(),
                    forall|m: int| 0 <= m < used.len() ==> old(board).ids()[#[trigger] used[m] as int] is Some,
                    forall|m: int, l: int| 0 <= m < l < used.len() ==> used[m] != used[l],
                decreases used.len() - c,
            {
                let cell_idx = cells[c];
                proof {
                    if used.take(c as int).contains(cell_idx) {
                        let w = choose|w: int| 0 <= w < c && #[trigger] used.take(c as int)[w] == cell_idx;
                        assert(used[w] == used.take(c as int)[w]);
                        assert(used[w] != used[c as int]);
                    }
                    assert(!used.take(c as int).contains(cell_idx));
                    assert(cell_idx == used[c as int]);
                    assert(old(board).ids()[used[c as int] as int] is Some);
                    assert(cell_idx < BOARD_SIZE);
                    assert(cleared(old(board).ids(), used.take(c as int))[cell_idx as int] == old(
                        board,
                    ).ids()[cell_idx as int]);
                    assert(board.ids()[cell_idx as int] == old(board).ids()[cell_idx as int]);
                }
                let taken = board.take(cell_idx);
                assert(board.ids() =~= cleared(old(board).ids(), used.take(c + 1))) by {
                    assert forall|j: int| 0 <= j < BOARD_SIZE implies #[trigger] used.take(c + 1).contains(
                        j as usize,
                    ) == (used.take(c as int).contains(j as usize) || j == cell_idx) by {
                        if used.take(c + 1).contains(j as usize) {
                            let w = choose|w: int|
                                0 <= w < c + 1 && #[trigger] used.take(c + 1)[w] == j as usize;
                            if w < c {
                                assert(used.take(c as int)[w] == j as usize);
                            }
                        }
                        if used.take(c as int).contains(j as usize) {
                            let w = choose|w: int|
                                0 <= w < c && #[trigger] used.take(c as int)[w] == j as usize;
                            assert(used.take(c + 1)[w] == j as usize);
                        }
                        if j == cell_idx {
                            assert(used.take(c + 1)[c as int] == j as usize);
                        }
                    }
                }
                c = c + 1;
            }
            assert(used.take(c as int) =~= used);
            proof {
                if used.len() > 0 {
                    assert(used.contains(used[0]));
                    assert(board.ids()[used[0] as int] != old(board).ids()[used[0] as int]);
                } else {
                    assert(board.ids() =~= old(board).ids());
                }
            }
            let ghost e_mid = *economy;
            economy.add_coins(reward);
            let ghost e_coins = *economy;
            let up = economy.add_exp(50);
            let ghost mid = *orders;
            orders.fill_orders(db);
            assert(mid.fill_post(*orders, *db));
            assert(e_coins.exp_post(*economy, 50, up));
            Some(reward)
        },
        None => None,
    }
}


/// The board after placing the initial pieces `entries` (column, row, id)
/// in order; a piece aimed at an occupied cell is dropped.
pub open spec fn initial_fold(ids: Seq<Option<Seq<char>>>, entries: Seq<(int, int, Seq<char>)>) -> Seq<
    Option<Seq<char>>,
>
    decreases entries.len(),
{
    if entries.len() == 0 {
        ids
    } else {
        let prev = initial_fold(ids, entries.drop_last());
        let e = entries.last();
        let i = e.1 * 7 + e.0;
        if prev[i] is None {
            prev.update(i, Some(e.2))
        } else {
            prev
        }
    }
}

/// Cell of the board an initial-board entry names.
pub open spec fn entry_cell(e: (int, int, Seq<char>)) -> int {
    e.1 * 7 + e.0
}

/// On an empty board, initial-board entries naming distinct cells of the
/// board each leave their piece in their cell, and every cell no entry
/// names stays empty.
pub proof fn law_initial_board(ids: Seq<Option<Seq<char>>>, entries: Seq<(int, int, Seq<char>)>)
    requires
        ids.len() == BOARD_SIZE,
        forall|j: int| 0 <= j < BOARD_SIZE ==> #[trigger] ids[j] is None,
        forall|k: int|
            0 <= k < entries.len() ==> 0 <= (#[trigger] entries[k]).0 < 7 && 0 <= entries[k].1 < 9,
        forall|k: int, l: int|
            0 <= k < l < entries.len() ==> entry_cell(#[trigger] entries[k]) != entry_cell(
                #[trigger] entries[l],
            ),
    ensures
        initial_fold(ids, entries).len() == BOARD_SIZE,
        forall|k: int|
            0 <= k < entries.len() ==> initial_fold(ids, entries)[entry_cell(#[trigger] entries[k])]
                == Some(entries[k].2),
        forall|j: int|
            0 <= j < BOARD_SIZE && (forall|k: int| 0 <= k < entries.len() ==> entry_cell(
                #[trigger] entries[k],
            ) != j) ==> #[trigger] initial_fold(ids, entries)[j] is None,
    decreases entries.len(),
{
    if entries.len() > 0 {
        let prev = entries.drop_last();
        assert forall|k: int| 0 <= k < prev.len() implies 0 <= (#[trigger] prev[k]).0 < 7 && 0
            <= prev[k].1 < 9 by {
            assert(prev[k] == entries[k]);
        }
        assert forall|k: int, l: int| 0 <= k < l < prev.len() implies entry_cell(#[trigger] prev[k])
            != entry_cell(#[trigger] prev[l]) by {
            assert(prev[k] == entries[k]);
            assert(prev[l] == entries[l]);
        }
        law_initial_board(ids, prev);
        let last = entries.last();
        let c = entry_cell(last);
        let before = initial_fold(ids, prev);
        assert(0 <= entries[entries.len() - 1].0 < 7 && 0 <= entries[entries.len() - 1].1 < 9);
        assert(before[c] is None) by {
            assert forall|k: int| 0 <= k < prev.len() implies entry_cell(#[trigger] prev[k]) != c by {
                assert(prev[k] == entries[k]);
                assert(entry_cell(entries[k]) != entry_cell(entries[entries.len() - 1]));
            }
        }
        let after = initial_fold(ids, entries);
        assert(after == before.update(c, Some(last.2)));
        assert forall|k: int| 0 <= k < entries.len() implies after[entry_cell(#[trigger] entries[k])]
            == Some(entries[k].2) by {
            if k < prev.len() {
                assert(prev[k] == entries[k]);
                assert(entry_cell(entries[k]) != entry_cell(entries[entries.len() - 1]));
            }
        }
        assert forall|j: int|
            0 <= j < BOARD_SIZE && (forall|k: int| 0 <= k < entries.len() ==> entry_cell(
                #[trigger] entries[k],
            ) != j) implies #[trigger] after[j] is None by {
            assert(entry_cell(entries[entries.len() - 1]) != j);
            assert forall|k: int| 0 <= k < prev.len() implies entry_cell(#[trigger] prev[k]) != j by {
                assert(prev[k] == entries[k]);
            }
        }
    }
}

/// Places the initial pieces listed by the board table (see
/// `load_board_init`).
pub fn setup_initial_board(board: &mut Board, entries: &Vec<(usize, usize, String)>)
    requires
        old(board).wf(),
        forall|k: int|
            0 <= k < entries@.len() ==> (#[trigger] entries@[k]).1 * 7 + entries@[k].0 < BOARD_SIZE,
    ensures
        final(board).wf(),
        final(board).selected == old(board).selected,
        final(board).ids() == initial_fold(old(board).ids(), entries_view(entries@)),
        final(board).dirty == (old(board).dirty || final(board).ids() != old(board).ids()),
{
    let ghost ev = entries_view(entries@);
    let mut k: usize = 0;
    assert(ev.take(0) =~= Seq::<(int, int, Seq<char>)>::empty());
    while k < entries.len()
        invariant
            board.wf(),
            board.selected == old(board).selected,
            ev == entries_view(entries@),
            k <= entries@.len(),
            forall|j: int|
                0 <= j < entries@.len() ==> (#[trigger] entries@[j]).1 * 7 + entries@[j].0 < BOARD_SIZE,
            board.ids() == initial_fold(old(board).ids(), ev.take(k as int)),
            kept(old(board).ids(), board.ids()),
            board.dirty == (old(board).dirty || filled(old(board).ids(), board.ids())),
        decreases entries@.len() - k,
    {
        assert(ev.take(k + 1).drop_last() =~= ev.take(k as int));
        assert(ev.take(k + 1).last() == ev[k as int]);
        let (col, row, ref item_id) = entries[k];
        let i = Board::idx(col, row);
        let ghost before = board.ids();
        let placed = board.place(i, item_id.as_str());
        proof {
            if placed {
                lemma_fill_step(old(board).ids(), before, i as int, item_id@);
            }
        }
        k = k + 1;
    }
    assert(ev.take(k as int) =~= ev);
    proof {
        lemma_filled_iff_changed(old(board).ids(), board.ids());
    }
}


/// Stepping auto-generators keeps the sizes of the board and of the
/// per-cell tables, fills only empty cells and keeps every store within
/// `MAX_STORED_EGGS` when it was within before.
proof fn lemma_tick_fold(
    db: ItemDatabase,
    ids0: Seq<Option<Seq<char>>>,
    cells: Seq<int>,
    st: TickState,
    d: int,
)
    requires
        st.0.len() == BOARD_SIZE,
        st.1.len() == BOARD_SIZE,
        st.2.len() == BOARD_SIZE,
        forall|k: int| 0 <= k < cells.len() ==> 0 <= #[trigger] cells[k] < BOARD_SIZE,
    ensures
        ({
            let r = tick_fold(db, ids0, cells, st, d);
            &&& r.0.len() == BOARD_SIZE
            &&& r.1.len() == BOARD_SIZE
            &&& r.2.len() == BOARD_SIZE
            &&& forall|j: int| 0 <= j < BOARD_SIZE && st.0[j] is Some ==> #[trigger] r.0[j] == st.0[j]
            &&& (forall|j: int| 0 <= j < BOARD_SIZE ==> #[trigger] st.2[j] <= MAX_STORED_EGGS)
                ==> forall|j: int| 0 <= j < BOARD_SIZE ==> #[trigger] r.2[j] <= MAX_STORED_EGGS
        }),
    decreases cells.len(),
{
    if cells.len() > 0 {
        let prev_cells = cells.drop_last();
        assert forall|k: int| 0 <= k < prev_cells.len() implies 0 <= #[trigger] prev_cells[k]
            < BOARD_SIZE by {
            assert(prev_cells[k] == cells[k]);
        }
        lemma_tick_fold(db, ids0, prev_cells, st, d);
        let p = tick_fold(db, ids0, prev_cells, st, d);
        let i = cells.last();
        assert(0 <= i < BOARD_SIZE);
        crate::board::lemma_adjacent_from(p.0, i, 0);
    }
}

/// A tick of the auto-generators never removes or replaces a piece: it
/// only fills empty cells.
pub proof fn law_tick_keeps_pieces(
    db: ItemDatabase,
    ids: Seq<Option<Seq<char>>>,
    timers: Seq<u64>,
    eggs: Seq<u32>,
    d: int,
)
    requires
        ids.len() == BOARD_SIZE,
        timers.len() == BOARD_SIZE,
        eggs.len() == BOARD_SIZE,
    ensures
        forall|j: int|
            0 <= j < BOARD_SIZE && ids[j] is Some ==> #[trigger] tick_fold(
                db,
                ids,
                auto_gen_cells(db, ids, BOARD_SIZE as int),
                (ids, timers, eggs, false),
                d,
            ).0[j] == ids[j],
{
    lemma_auto_gen_cells(db, ids, BOARD_SIZE as int);
    lemma_tick_fold(db, ids, auto_gen_cells(db, ids, BOARD_SIZE as int), (ids, timers, eggs, false), d);
}

/// An auto-generator never stores more than `MAX_STORED_EGGS` products.
pub proof fn law_store_bounded(
    db: ItemDatabase,
    ids: Seq<Option<Seq<char>>>,
    timers: Seq<u64>,
    eggs: Seq<u32>,
    d: int,
)
    requires
        ids.len() == BOARD_SIZE,
        timers.len() == BOARD_SIZE,
        eggs.len() == BOARD_SIZE,
        forall|j: int| 0 <= j < BOARD_SIZE ==> #[trigger] eggs[j] <= MAX_STORED_EGGS,
    ensures
        forall|j: int|
            0 <= j < BOARD_SIZE ==> #[trigger] tick_fold(
                db,
                ids,
                auto_gen_cells(db, ids, BOARD_SIZE as int),
                (ids, timers, eggs, false),
                d,
            ).2[j] <= MAX_STORED_EGGS,
{
    lemma_auto_gen_cells(db, ids, BOARD_SIZE as int);
    lemma_tick_fold(db, ids, auto_gen_cells(db, ids, BOARD_SIZE as int), (ids, timers, eggs, false), d);
}

/// Stepping distinct generators in increasing order changes only their own
/// stores, each by at most one more product.
proof fn lemma_tick_fold_growth(
    db: ItemDatabase,
    ids0: Seq<Option<Seq<char>>>,
    cells: Seq<int>,
    st: TickState,
    d: int,
)
    requires
        st.0.len() == BOARD_SIZE,
        st.1.len() == BOARD_SIZE,
        st.2.len() == BOARD_SIZE,
        forall|k: int| 0 <= k < cells.len() ==> 0 <= #[trigger] cells[k] < BOARD_SIZE,
        forall|k: int, l: int| 0 <= k < l < cells.len() ==> cells[k] < cells[l],
    ensures
        forall|j: int|
            0 <= j < BOARD_SIZE ==> #[trigger] tick_fold(db, ids0, cells, st, d).2[j] <= st.2[j] + 1,
        forall|j: int|
            0 <= j < BOARD_SIZE && !cells.contains(j) ==> #[trigger] tick_fold(db, ids0, cells, st, d).2[j]
                == st.2[j],
    decreases cells.len(),
{
    if cells.len() > 0 {
        let prev_cells = cells.drop_last();
        assert forall|k: int| 0 <= k < prev_cells.len() implies 0 <= #[trigger] prev_cells[k]
            < BOARD_SIZE by {
            assert(prev_cells[k] == cells[k]);
        }
        assert forall|k: int, l: int| 0 <= k < l < prev_cells.len() implies prev_cells[k]
            < prev_cells[l] by {
            assert(prev_cells[k] == cells[k]);
            assert(prev_cells[l] == cells[l]);
        }
        lemma_tick_fold_growth(db, ids0, prev_cells, st, d);
        lemma_tick_fold(db, ids0, prev_cells, st, d);
        let i = cells.last();
        assert(!prev_cells.contains(i)) by {
            if prev_cells.contains(i) {
                let k = choose|k: int| 0 <= k < prev_cells.len() && prev_cells[k] == i;
                assert(cells[k] == prev_cells[k]);
                assert(cells[k] < cells[cells.len() - 1]);
            }
        }
        assert forall|j: int| 0 <= j < BOARD_SIZE && !cells.contains(j) implies !prev_cells.contains(
            j,
        ) by {
            if prev_cells.contains(j) {
                let k = choose|k: int| 0 <= k < prev_cells.len() && prev_cells[k] == j;
                assert(cells[k] == prev_cells[k]);
            }
        }
        assert(cells.contains(i)) by {
            assert(cells[cells.len() - 1] == i);
        }
    }
}

/// A generator's timer after `d` more milliseconds with interval `iv`: a
/// full interval is used up whenever one has passed.
pub open spec fn timer_after(t: int, d: int, iv: int) -> int {
    if t + d >= iv {
        t + d - iv
    } else {
        t + d
    }
}

/// Stepping distinct generators in increasing order advances each stepped
/// timer by `d`, using up an interval whenever one has passed, and leaves
/// the other timers alone.
proof fn lemma_tick_fold_timers(
    db: ItemDatabase,
    ids0: Seq<Option<Seq<char>>>,
    cells: Seq<int>,
    st: TickState,
    d: int,
)
    requires
        st.0.len() == BOARD_SIZE,
        st.1.len() == BOARD_SIZE,
        st.2.len() == BOARD_SIZE,
        d >= 0,
        forall|j: int| 0 <= j < BOARD_SIZE ==> #[trigger] st.1[j] + d <= u64::MAX,
        forall|k: int| 0 <= k < cells.len() ==> 0 <= #[trigger] cells[k] < BOARD_SIZE,
        forall|k: int, l: int| 0 <= k < l < cells.len() ==> cells[k] < cells[l],
    ensures
        forall|j: int|
            0 <= j < BOARD_SIZE && !cells.contains(j) ==> #[trigger] tick_fold(db, ids0, cells, st, d).1[j]
                == st.1[j],
        forall|k: int|
            0 <= k < cells.len() ==> tick_fold(db, ids0, cells, st, d).1[#[trigger] cells[k]]
                == timer_after(
                st.1[cells[k]] as int,
                d,
                def_at(db, ids0, cells[k]).auto_gen_interval_ms as int,
            ),
    decreases cells.len(),
{
    if cells.len() > 0 {
        let prev_cells = cells.drop_last();
        assert forall|k: int| 0 <= k < prev_cells.len() implies 0 <= #[trigger] prev_cells[k]
            < BOARD_SIZE by {
            assert(prev_cells[k] == cells[k]);
        }
        assert forall|k: int, l: int| 0 <= k < l < prev_cells.len() implies prev_cells[k]
            < prev_cells[l] by {
            assert(prev_cells[k] == cells[k]);
            assert(prev_cells[l] == cells[l]);
        }
        lemma_tick_fold_timers(db, ids0, prev_cells, st, d);
        lemma_tick_fold(db, ids0, prev_cells, st, d);
        let i = cells.last();
        assert(cells[cells.len() - 1] == i);
        assert(!prev_cells.contains(i)) by {
            if prev_cells.contains(i) {
                let k = choose|k: int| 0 <= k < prev_cells.len() && prev_cells[k] == i;
                assert(cells[k] == prev_cells[k]);
                assert(cells[k] < cells[cells.len() - 1]);
            }
        }
        assert forall|j: int| 0 <= j < BOARD_SIZE && !cells.contains(j) implies !prev_cells.contains(
            j,
        ) by {
            if prev_cells.contains(j) {
                let k = choose|k: int| 0 <= k < prev_cells.len() && prev_cells[k] == j;
                assert(cells[k] == prev_cells[k]);
            }
        }
        assert forall|k: int| 0 <= k < cells.len() - 1 implies cells[k] != i by {
            assert(cells[k] < cells[cells.len() - 1]);
        }
        let p = tick_fold(db, ids0, prev_cells, st, d);
        let def = def_at(db, ids0, i);
        let iv = def.auto_gen_interval_ms as int;
        assert(p.1[i] == st.1[i]);
        let acc = p.1[i] + d;
        let acc2 = if acc >= iv {
            acc - iv
        } else {
            acc
        };
        let r = tick_fold(db, ids0, cells, st, d);
        assert(r == gen_step(p, i, iv, def.generates_id->Some_0@, d));
        assert(r.1 == p.1.update(i, acc2 as u64));
        assert(r.1[i] == timer_after(st.1[i] as int, d, iv));
        assert forall|k: int| 0 <= k < cells.len() implies r.1[#[trigger] cells[k]] == timer_after(
            st.1[cells[k]] as int,
            d,
            def_at(db, ids0, cells[k]).auto_gen_interval_ms as int,
        ) by {
            if k < cells.len() - 1 {
                assert(prev_cells[k] == cells[k]);
                assert(cells[k] != i);
            }
        }
    }
}

/// In one tick every auto-generator's timer advances by the elapsed time
/// and gives up one full interval whenever one has passed, whether or not
/// its store is full; the timers of other cells do not move.
pub proof fn law_tick_timers(
    db: ItemDatabase,
    ids: Seq<Option<Seq<char>>>,
    timers: Seq<u64>,
    eggs: Seq<u32>,
    d: int,
)
    requires
        ids.len() == BOARD_SIZE,
        timers.len() == BOARD_SIZE,
        eggs.len() == BOARD_SIZE,
        d >= 0,
        forall|j: int| 0 <= j < BOARD_SIZE ==> #[trigger] timers[j] + d <= u64::MAX,
    ensures
        forall|j: int|
            0 <= j < BOARD_SIZE && is_auto_gen_cell(db, ids, j) ==> #[trigger] tick_fold(
                db,
                ids,
                auto_gen_cells(db, ids, BOARD_SIZE as int),
                (ids, timers, eggs, false),
                d,
            ).1[j] == timer_after(timers[j] as int, d, def_at(db, ids, j).auto_gen_interval_ms as int),
        forall|j: int|
            0 <= j < BOARD_SIZE && !is_auto_gen_cell(db, ids, j) ==> #[trigger] tick_fold(
                db,
                ids,
                auto_gen_cells(db, ids, BOARD_SIZE as int),
                (ids, timers, eggs, false),
                d,
            ).1[j] == timers[j],
{
    let cells = auto_gen_cells(db, ids, BOARD_SIZE as int);
    lemma_auto_gen_cells(db, ids, BOARD_SIZE as int);
    lemma_auto_gen_cells_complete(db, ids, BOARD_SIZE as int);
    lemma_tick_fold_timers(db, ids, cells, (ids, timers, eggs, false), d);
    assert forall|j: int| 0 <= j < BOARD_SIZE && !is_auto_gen_cell(db, ids, j) implies !cells.contains(
        j,
    ) by {
        if cells.contains(j) {
            let k = choose|k: int| 0 <= k < cells.len() && cells[k] == j;
            assert(is_auto_gen_cell(db, ids, cells[k]));
        }
    }
    assert forall|j: int| 0 <= j < BOARD_SIZE && is_auto_gen_cell(db, ids, j) implies #[trigger] tick_fold(
        db,
        ids,
        cells,
        (ids, timers, eggs, false),
        d,
    ).1[j] == timer_after(timers[j] as int, d, def_at(db, ids, j).auto_gen_interval_ms as int) by {
        assert(cells.contains(j));
        let k = choose|k: int| 0 <= k < cells.len() && cells[k] == j;
        assert(cells[k] == j);
    }
}

/// Every auto-generator cell among the first `n` cells is listed.
proof fn lemma_auto_gen_cells_complete(db: ItemDatabase, ids: Seq<Option<Seq<char>>>, n: int)
    ensures
        forall|j: int| 0 <= j < n && is_auto_gen_cell(db, ids, j) ==> auto_gen_cells(db, ids, n).contains(j),
    decreases n,
{
    if n > 0 {
        lemma_auto_gen_cells_complete(db, ids, n - 1);
        let prev = auto_gen_cells(db, ids, n - 1);
        if is_auto_gen_cell(db, ids, n - 1) {
            let cur = prev.push(n - 1);
            assert(cur[cur.len() - 1] == n - 1);
            assert forall|j: int| 0 <= j < n - 1 && is_auto_gen_cell(db, ids, j) implies cur.contains(j) by {
                let k = choose|k: int| 0 <= k < prev.len() && prev[k] == j;
                assert(cur[k] == prev[k]);
            }
        }
    }
}

/// In one tick an auto-generator's store grows by at most one product, and
/// the store of a cell that holds no auto-generator does not change.
pub proof fn law_store_grows_by_one(
    db: ItemDatabase,
    ids: Seq<Option<Seq<char>>>,
    timers: Seq<u64>,
    eggs: Seq<u32>,
    d: int,
)
    requires
        ids.len() == BOARD_SIZE,
        timers.len() == BOARD_SIZE,
        eggs.len() == BOARD_SIZE,
    ensures
        forall|j: int|
            0 <= j < BOARD_SIZE ==> #[trigger] tick_fold(
                db,
                ids,
                auto_gen_cells(db, ids, BOARD_SIZE as int),
                (ids, timers, eggs, false),
                d,
            ).2[j] <= eggs[j] + 1,
        forall|j: int|
            0 <= j < BOARD_SIZE && !is_auto_gen_cell(db, ids, j) ==> #[trigger] tick_fold(
                db,
                ids,
                auto_gen_cells(db, ids, BOARD_SIZE as int),
                (ids, timers, eggs, false),
                d,
            ).2[j] == eggs[j],
{
    let cells = auto_gen_cells(db, ids, BOARD_SIZE as int);
    lemma_auto_gen_cells(db, ids, BOARD_SIZE as int);
    lemma_tick_fold_growth(db, ids, cells, (ids, timers, eggs, false), d);
    assert forall|j: int| 0 <= j < BOARD_SIZE && !is_auto_gen_cell(db, ids, j) implies !cells.contains(
        j,
    ) by {
        if cells.contains(j) {
            let k = choose|k: int| 0 <= k < cells.len() && cells[k] == j;
            assert(is_auto_gen_cell(db, ids, cells[k]));
        }
    }
}

/// Placing produced pieces never removes or replaces a piece and places
/// at most one piece per produced item.
pub proof fn law_place_all_keeps_pieces(ids: Seq<Option<Seq<char>>>, src: int, items: Seq<Seq<char>>)
    requires
        ids.len() == BOARD_SIZE,
        0 <= src < BOARD_SIZE,
    ensures
        place_all(ids, src, items).0.len() == BOARD_SIZE,
        place_all(ids, src, items).1 <= items.len(),
        forall|j: int|
            0 <= j < BOARD_SIZE && ids[j] is Some ==> #[trigger] place_all(ids, src, items).0[j]
                == ids[j],
    decreases items.len(),
{
    if items.len() > 0 {
        law_place_all_keeps_pieces(ids, src, items.drop_last());
        let p = place_all(ids, src, items.drop_last());
        crate::board::lemma_adjacent_from(p.0, src, 0);
        crate::board::lemma_empty_from(p.0, 0);
    }
}

} // verus!
