//! The order panel: up to three active orders, each asking for one to
//! three items and paying coins when the items are handed in.
use vstd::prelude::*;

use crate::audio::{decimal, decimal_string};
use crate::board::Board;
use crate::items::ItemDatabase;
use crate::random::random_below;

verus! {

/// Maximum number of simultaneous orders.
pub const MAX_ORDERS: usize = 3;

/// How many random template picks `generate_order` tries.
pub const ORDER_PICK_ATTEMPTS: usize = 10;

/// Time a new order stays on the panel before it expires: one hour for
/// every order, since the order table gives no time limit of its own.
pub const ORDER_TIME_LIMIT_MS: u64 = 3_600_000;

/// An active order: one piece of each listed item is required.
#[derive(Debug)]
pub struct Order {
    pub id: u32,
    /// Item ids required by this order, each needed once per listing.
    pub items: Vec<String>,
    /// Coins paid when the order is completed.
    pub coin_reward: u64,
    /// Time left before the order expires, in milliseconds.
    pub time_remaining_ms: u64,
}

/// An order with its time counted down by `d` milliseconds, floored at 0.
pub open spec fn ticked(o: Order, d: int) -> Order {
    Order {
        time_remaining_ms: if o.time_remaining_ms > d {
            (o.time_remaining_ms - d) as u64
        } else {
            0
        },
        ..o
    }
}

/// The orders of `orders` whose time outlasts `d` milliseconds, in order,
/// each counted down by `d`.
pub open spec fn survivors(orders: Seq<Order>, d: int) -> Seq<Order>
    decreases orders.len(),
{
    if orders.len() == 0 {
        Seq::empty()
    } else {
        let rest = survivors(orders.drop_last(), d);
        if orders.last().time_remaining_ms > d {
            rest.push(ticked(orders.last(), d))
        } else {
            rest
        }
    }
}

/// The ids of the orders of `orders` whose time runs out within `d`
/// milliseconds, in order.
pub open spec fn expired_ids(orders: Seq<Order>, d: int) -> Seq<u32>
    decreases orders.len(),
{
    if orders.len() == 0 {
        Seq::empty()
    } else {
        let rest = expired_ids(orders.drop_last(), d);
        if orders.last().time_remaining_ms > d {
            rest
        } else {
            rest.push(orders.last().id)
        }
    }
}

/// The character sequences of a vector of strings.
pub open spec fn strings_view(v: Seq<String>) -> Seq<Seq<char>> {
    Seq::new(v.len(), |i: int| v[i]@)
}

/// The contents of a list of optional board pieces.
pub open spec fn cells_view(v: Seq<Option<String>>) -> Seq<Option<Seq<char>>> {
    Seq::new(
        v.len(),
        |i: int|
            match v[i] {
                Some(s) => Some(s@),
                None => None,
            },
    )
}

/// A template can become an order when every item it lists is known.
pub open spec fn template_valid(db: ItemDatabase, items: Seq<Seq<char>>) -> bool {
    forall|i: int| 0 <= i < items.len() ==> (#[trigger] db.spec_get(items[i])) is Some
}

/// Index of the first order at or after `i` with id `id`, or -1.
pub open spec fn order_index_from(orders: Seq<Order>, id: u32, i: int) -> int
    decreases orders.len() - i,
{
    if i < 0 || i >= orders.len() {
        -1
    } else if orders[i].id == id {
        i
    } else {
        order_index_from(orders, id, i + 1)
    }
}

pub proof fn lemma_order_index_range(orders: Seq<Order>, id: u32, i: int)
    ensures
        order_index_from(orders, id, i) == -1 || (i <= order_index_from(orders, id, i)
            < orders.len() && orders[order_index_from(orders, id, i)].id == id),
    decreases orders.len() - i,
{
    if 0 <= i < orders.len() && orders[i].id != id {
        lemma_order_index_range(orders, id, i + 1);
    }
}

/// An order whose id occurs at position `s` is found at or before `s`.
pub proof fn lemma_order_index(orders: Seq<Order>, id: u32, s: int)
    requires
        0 <= s < orders.len(),
        orders[s].id == id,
    ensures
        0 <= order_index_from(orders, id, 0) <= s,
{
    lemma_order_index_from(orders, id, 0, s);
}

proof fn lemma_order_index_from(orders: Seq<Order>, id: u32, i: int, s: int)
    requires
        0 <= i <= s < orders.len(),
        orders[s].id == id,
    ensures
        i <= order_index_from(orders, id, i) <= s,
    decreases s - i,
{
    if orders[i].id != id {
        lemma_order_index_from(orders, id, i + 1, s);
    }
}

/// The orders whose id is not `id`, in their order.
pub open spec fn without_id(orders: Seq<Order>, id: u32) -> Seq<Order>
    decreases orders.len(),
{
    if orders.len() == 0 {
        Seq::empty()
    } else if orders.last().id == id {
        without_id(orders.drop_last(), id)
    } else {
        without_id(orders.drop_last(), id).push(orders.last())
    }
}

/// The first cell at or after `j` holding `item` that is not among `used`, or -1.
pub open spec fn free_cell_from(
    board: Seq<Option<Seq<char>>>,
    item: Seq<char>,
    used: Seq<usize>,
    j: int,
) -> int
    decreases board.len() - j,
{
    if j < 0 || j >= board.len() {
        -1
    } else if board[j] == Some(item) && !used.contains(j as usize) {
        j
    } else {
        free_cell_from(board, item, used, j + 1)
    }
}

/// Cells handed in for the required items `req`: for each item in turn,
/// the first cell holding it that was not taken for an earlier item.
/// `None` when some item finds no such cell.
pub open spec fn assign_cells(board: Seq<Option<Seq<char>>>, req: Seq<Seq<char>>) -> Option<
    Seq<usize>,
>
    decreases req.len(),
{
    if req.len() == 0 {
        Some(Seq::empty())
    } else {
        match assign_cells(board, req.drop_last()) {
            None => None,
            Some(used) => {
                let f = free_cell_from(board, req.last(), used, 0);
                if f < 0 {
                    None
                } else {
                    Some(used.push(f as usize))
                }
            },
        }
    }
}

/// A requirement list that can be assigned has every prefix assignable,
/// to the corresponding prefix of cells.
pub proof fn lemma_assign_prefix(board: Seq<Option<Seq<char>>>, req: Seq<Seq<char>>, m: int)
    requires
        0 <= m <= req.len(),
    ensures
        assign_cells(board, req) matches Some(u) ==> assign_cells(board, req.take(m)) == Some(
            u.take(m),
        ),
        assign_cells(board, req.take(m)) is None ==> assign_cells(board, req) is None,
    decreases req.len(),
{
    if m == req.len() {
        assert(req.take(m) =~= req);
        if let Some(u) = assign_cells(board, req) {
            lemma_assign_len(board, req);
            assert(u.take(m) =~= u);
        }
    } else {
        lemma_assign_prefix(board, req.drop_last(), m);
        assert(req.drop_last().take(m) =~= req.take(m));
        if let Some(u) = assign_cells(board, req) {
            let u0 = assign_cells(board, req.drop_last())->Some_0;
            assert(u == u0.push(u.last()));
            lemma_assign_len(board, req.drop_last());
            assert(u0.take(m) =~= u.take(m));
        }
    }
}

proof fn lemma_assign_len(board: Seq<Option<Seq<char>>>, req: Seq<Seq<char>>)
    ensures
        assign_cells(board, req) matches Some(u) ==> u.len() == req.len(),
    decreases req.len(),
{
    if req.len() > 0 {
        lemma_assign_len(board, req.drop_last());
    }
}

pub proof fn lemma_free_cell_from(
    board: Seq<Option<Seq<char>>>,
    item: Seq<char>,
    used: Seq<usize>,
    j: int,
)
    ensures
        free_cell_from(board, item, used, j) == -1 || (j <= free_cell_from(board, item, used, j)
            < board.len() && board[free_cell_from(board, item, used, j)] == Some(item)
            && !used.contains(free_cell_from(board, item, used, j) as usize)),
    decreases board.len() - j,
{
    if j < 0 || j >= board.len() {
    } else if board[j] == Some(item) && !used.contains(j as usize) {
    } else {
        lemma_free_cell_from(board, item, used, j + 1);
    }
}

/// The cells chosen by `assign_cells` are distinct, lie on the board and
/// hold, position by position, the required items.
pub proof fn lemma_assign_cells(board: Seq<Option<Seq<char>>>, req: Seq<Seq<char>>)
    requires
        board.len() <= usize::MAX,
    ensures
        assign_cells(board, req) matches Some(used) ==> {
            &&& used.len() == req.len()
            &&& forall|k: int| 0 <= k < used.len() ==> (#[trigger] used[k]) < board.len()
            &&& forall|k: int| 0 <= k < used.len() ==> board[#[trigger] used[k] as int] == Some(req[k])
            &&& forall|k: int, l: int| 0 <= k < l < used.len() ==> used[k] != used[l]
        },
    decreases req.len(),
{
    if req.len() > 0 {
        lemma_assign_cells(board, req.drop_last());
        if let Some(used) = assign_cells(board, req.drop_last()) {
            lemma_free_cell_from(board, req.last(), used, 0);
            let f = free_cell_from(board, req.last(), used, 0);
            if f >= 0 {
                let u2 = used.push(f as usize);
                assert forall|k: int| 0 <= k < u2.len() implies board[#[trigger] u2[k] as int]
                    == Some(req[k]) by {
                    if k < used.len() {
                        assert(u2[k] == used[k]);
                        assert(req.drop_last()[k] == req[k]);
                    }
                }
                assert forall|k: int, l: int| 0 <= k < l < u2.len() implies u2[k] != u2[l] by {
                    if l == u2.len() - 1 {
                        assert(used[k] == u2[k]);
                        assert(used.contains(used[k]));
                    }
                }
            }
        }
    }
}

/// Whether `x` occurs in `v`.
pub fn vec_contains(v: &Vec<usize>, x: usize) -> (r: bool)
    ensures
        r == v@.contains(x),
{
    let mut i: usize = 0;
    while i < v.len()
        invariant
            i <= v@.len(),
            forall|j: int| 0 <= j < i ==> v@[j] != x,
        decreases v@.len() - i,
    {
        if v[i] == x {
            return true;
        }
        i = i + 1;
    }
    false
}

/// The first cell of `board_items` holding `item` and not among `used`.
fn find_free_cell(board_items: &[Option<String>], item: &String, used: &Vec<usize>) -> (r: Option<
    usize,
>)
    ensures
        r matches Some(f) ==> f as int == free_cell_from(cells_view(board_items@), item@, used@, 0),
        r is None ==> free_cell_from(cells_view(board_items@), item@, used@, 0) == -1,
{
    let ghost board = cells_view(board_items@);
    let m = board_items.len();
    let mut i: usize = 0;
    while i < m
        invariant
            m == board.len(),
            board == cells_view(board_items@),
            i <= m,
            free_cell_from(board, item@, used@, 0) == free_cell_from(board, item@, used@, i as int),
        decreases m - i,
    {
        let hit = match &board_items[i] {
            Some(s) => *s == *item,
            None => false,
        };
        assert(hit == (board[i as int] == Some(item@)));
        if hit && !vec_contains(used, i) {
            return Some(i);
        }
        i = i + 1;
    }
    None
}

/// Position of the first occurrence of `x` in `r`, or -1.
pub open spec fn first_pos(r: Seq<Seq<char>>, x: Seq<char>, i: int) -> int
    decreases r.len() - i,
{
    if i < 0 || i >= r.len() {
        -1
    } else if r[i] == x {
        i
    } else {
        first_pos(r, x, i + 1)
    }
}

pub proof fn lemma_first_pos(r: Seq<Seq<char>>, x: Seq<char>, i: int)
    ensures
        first_pos(r, x, i) == -1 || (i <= first_pos(r, x, i) < r.len() && r[first_pos(
            r,
            x,
            i,
        )] == x),
    decreases r.len() - i,
{
    if 0 <= i < r.len() && r[i] != x {
        lemma_first_pos(r, x, i + 1);
    }
}

/// The required items still missing after crossing off, cell by cell, the
/// first still-missing occurrence of each piece on the board.
pub open spec fn remaining_after(req: Seq<Seq<char>>, cells: Seq<Option<Seq<char>>>) -> Seq<
    Seq<char>,
>
    decreases cells.len(),
{
    if cells.len() == 0 {
        req
    } else {
        let r = remaining_after(req, cells.drop_last());
        match cells.last() {
            Some(x) => {
                let p = first_pos(r, x, 0);
                if p >= 0 {
                    r.remove(p)
                } else {
                    r
                }
            },
            None => r,
        }
    }
}

/// Position of the first occurrence of `x` in `v`, or the length of `v`.
fn position_of(v: &Vec<String>, x: &String) -> (j: usize)
    ensures
        j <= v@.len(),
        j < v@.len() ==> first_pos(strings_view(v@), x@, 0) == j,
        j == v@.len() ==> first_pos(strings_view(v@), x@, 0) == -1,
{
    let ghost sv = strings_view(v@);
    let m = v.len();
    let mut j: usize = 0;
    while j < m
        invariant
            m == v@.len(),
            sv == strings_view(v@),
            j <= m,
            first_pos(sv, x@, 0) == first_pos(sv, x@, j as int),
        decreases m - j,
    {
        if v[j] == *x {
            return j;
        }
        j = j + 1;
    }
    j
}

impl Order {
    /// Whether the pieces on the board cover every item this order asks for.
    pub fn can_complete(&self, board: &Board) -> (r: bool)
        ensures
            r == (remaining_after(strings_view(self.items@), board.ids()).len() == 0),
    {
        let mut remaining: Vec<String> = Orders::copy_strings(&self.items);
        let ghost req = strings_view(self.items@);
        let n = board.cells.len();
        let mut i: usize = 0;
        assert(board.ids().take(0) =~= Seq::<Option<Seq<char>>>::empty());
        while i < n
            invariant
                n == board.ids().len(),
                i <= n,
                req == strings_view(self.items@),
                strings_view(remaining@) == remaining_after(req, board.ids().take(i as int)),
            decreases n - i,
        {
            let ghost before = strings_view(remaining@);
            assert(board.ids().take(i + 1).drop_last() =~= board.ids().take(i as int));
            assert(board.ids().take(i + 1).last() == board.ids()[i as int]);
            if let Some(id) = &board.cells[i].item_id {
                let m = remaining.len();
                let j = position_of(&remaining, id);
                proof {
                    lemma_first_pos(before, id@, 0);
                }
                if j < m {
                    remaining.remove(j);
                    assert(strings_view(remaining@) =~= before.remove(j as int));
                } else {
                    assert(first_pos(before, id@, 0) == -1);
                }
            }
            i = i + 1;
        }
        assert(board.ids().take(n as int) =~= board.ids());
        remaining.len() == 0
    }
}

/// The order panel.
#[derive(Debug)]
pub struct Orders {
    pub orders: Vec<Order>,
    pub next_id: u32,
    /// Order templates: the items each asks for and its coin reward.
    pub templates: Vec<(Vec<String>, u64)>,
}

impl Orders {
    /// The templates orders are drawn from.
    pub open spec fn templates_view(&self) -> Seq<(Seq<Seq<char>>, u64)> {
        Seq::new(
            self.templates@.len(),
            |i: int| (strings_view(self.templates@[i].0@), self.templates@[i].1),
        )
    }

    /// Whether `o` is an order made from template `k` under id `id`.
    pub open spec fn made_from(&self, o: Order, k: int, id: u32) -> bool {
        &&& 0 <= k < self.templates_view().len()
        &&& o.id == id
        &&& strings_view(o.items@) == self.templates_view()[k].0
        &&& o.coin_reward == self.templates_view()[k].1
        &&& o.time_remaining_ms == ORDER_TIME_LIMIT_MS
    }

    /// An empty panel drawing orders from `templates`.
    pub fn new(templates: Vec<(Vec<String>, u64)>) -> (r: Self)
        ensures
            r.orders@.len() == 0,
            r.next_id == 1,
            r.templates_view() == Seq::new(
                templates@.len(),
                |i: int| (strings_view(templates@[i].0@), templates@[i].1),
            ),
    {
        Orders { orders: Vec::new(), next_id: 1, templates }
    }

    fn copy_strings(v: &Vec<String>) -> (r: Vec<String>)
        ensures
            strings_view(r@) == strings_view(v@),
    {
        let mut r: Vec<String> = Vec::new();
        let mut i: usize = 0;
        while i < v.len()
            invariant
                i <= v@.len(),
                r@.len() == i,
                forall|j: int| 0 <= j < i ==> (#[trigger] r@[j])@ == v@[j]@,
            decreases v@.len() - i,
        {
            r.push(v[i].clone());
            i = i + 1;
        }
        assert(strings_view(r@) =~= strings_view(v@));
        r
    }

    /// Whether every item of template `k` is known to the database.
    fn template_is_valid(&self, db: &ItemDatabase, k: usize) -> (r: bool)
        requires
            k < self.templates_view().len(),
        ensures
            r == template_valid(*db, self.templates_view()[k as int].0),
    {
        let items = &self.templates[k].0;
        let mut i: usize = 0;
        while i < items.len()
            invariant
                k < self.templates@.len(),
                items == &self.templates@[k as int].0,
                i <= items@.len(),
                forall|j: int| 0 <= j < i ==> (#[trigger] db.spec_get(items@[j]@)) is Some,
            decreases items@.len() - i,
        {
            if db.get(items[i].as_str()).is_none() {
                assert(self.templates_view()[k as int].0[i as int] == items@[i as int]@);
                return false;
            }
            i = i + 1;
        }
        assert forall|j: int| 0 <= j < self.templates_view()[k as int].0.len() implies (
        #[trigger] db.spec_get(self.templates_view()[k as int].0[j])) is Some by {
            assert(self.templates_view()[k as int].0[j] == items@[j]@);
        }
        true
    }

    /// Makes an order from template `k` when every item it lists is known;
    /// the order takes the next id.
    pub fn order_from_template(&mut self, db: &ItemDatabase, k: usize) -> (r: Option<Order>)
        requires
            k < old(self).templates_view().len(),
            old(self).next_id < u32::MAX,
        ensures
            final(self).orders == old(self).orders,
            final(self).templates_view() == old(self).templates_view(),
            r is Some == template_valid(*db, old(self).templates_view()[k as int].0),
            r matches Some(o) ==> old(self).made_from(o, k as int, old(self).next_id),
            r is Some ==> final(self).next_id == old(self).next_id + 1,
            r is None ==> final(self).next_id == old(self).next_id,
    {
        if self.template_is_valid(db, k) {
            let items = Self::copy_strings(&self.templates[k].0);
            let order = Order {
                id: self.next_id,
                items,
                coin_reward: self.templates[k].1,
                time_remaining_ms: ORDER_TIME_LIMIT_MS,
            };
            self.next_id = self.next_id + 1;
            Some(order)
        } else {
            None
        }
    }

    /// What drawing an order with the random template picks `picks` (in the
    /// order they were drawn) gives: every pick but the last names a template
    /// with an unknown item; the last one either names a template whose
    /// items are all known, and the result is the order made from it under
    /// the next id, or it is the last allowed attempt and the result is
    /// `None`.
    pub open spec fn draw_post(&self, db: ItemDatabase, picks: Seq<int>, r: Option<Order>) -> bool {
        let tv = self.templates_view();
        &&& 0 < picks.len() <= ORDER_PICK_ATTEMPTS
        &&& forall|i: int| 0 <= i < picks.len() ==> 0 <= #[trigger] picks[i] < tv.len()
        &&& forall|i: int|
            0 <= i < picks.len() - 1 ==> !template_valid(db, tv[#[trigger] picks[i]].0)
        &&& match r {
            Some(o) => template_valid(db, tv[picks.last()].0) && self.made_from(
                o,
                picks.last(),
                self.next_id,
            ),
            None => picks.len() == ORDER_PICK_ATTEMPTS && !template_valid(db, tv[picks.last()].0),
        }
    }

    /// Draws a new order: up to ten random templates are tried and the first
    /// whose items are all known becomes an order with the next id (see
    /// `draw_post`).  With no template there is no order; when every
    /// template is usable the first pick always succeeds.
    pub fn generate_order(&mut self, db: &ItemDatabase) -> (r: Option<Order>)
        requires
            old(self).next_id < u32::MAX,
        ensures
            final(self).orders == old(self).orders,
            final(self).templates_view() == old(self).templates_view(),
            old(self).templates_view().len() == 0 ==> r is None,
            old(self).templates_view().len() > 0 ==> exists|picks: Seq<int>|
                #[trigger] old(self).draw_post(*db, picks, r),
            r matches Some(o) ==> exists|k: int|
                old(self).made_from(o, k, old(self).next_id) && template_valid(
                    *db,
                    #[trigger] old(self).templates_view()[k].0,
                ),
            r is Some ==> final(self).next_id == old(self).next_id + 1,
            r is None ==> final(self).next_id == old(self).next_id,
            (forall|k: int|
                0 <= k < old(self).templates_view().len() ==> !template_valid(
                    *db,
                    #[trigger] old(self).templates_view()[k].0,
                )) ==> r is None,
            old(self).templates_view().len() > 0 && (forall|k: int|
                0 <= k < old(self).templates_view().len() ==> template_valid(
                    *db,
                    #[trigger] old(self).templates_view()[k].0,
                )) ==> r is Some,
    {
        let n = self.templates.len();
        if n == 0 {
            return None;
        }
        let ghost tv = self.templates_view();
        let ghost mut picks: Seq<int> = Seq::empty();
        let mut attempt: usize = 0;
        while attempt < ORDER_PICK_ATTEMPTS
            invariant
                n == self.templates_view().len(),
                n > 0,
                tv == old(self).templates_view(),
                self.orders == old(self).orders,
                self.templates_view() == old(self).templates_view(),
                self.next_id == old(self).next_id,
                self.next_id < u32::MAX,
                attempt <= ORDER_PICK_ATTEMPTS,
                picks.len() == attempt,
                forall|i: int| 0 <= i < picks.len() ==> 0 <= #[trigger] picks[i] < n,
                forall|i: int| 0 <= i < picks.len() ==> !template_valid(*db, tv[#[trigger] picks[i]].0),
            decreases ORDER_PICK_ATTEMPTS - attempt,
        {
            let k = random_below(n as u64) as usize;
            let r = self.order_from_template(db, k);
            proof {
                picks = picks.push(k as int);
                assert(picks.last() == k as int);
            }
            if r.is_some() {
                assert(old(self).draw_post(*db, picks, r));
                return r;
            }
            attempt = attempt + 1;
        }
        assert(old(self).draw_post(*db, picks, None));
        None
    }

    /// Counts the orders' time down by `delta_ms` milliseconds (never below
    /// zero); the orders whose time ran out are removed, the others keep
    /// their order, and the ids of the removed ones are returned in panel
    /// order.
    pub fn tick(&mut self, delta_ms: u64) -> (expired: Vec<u32>)
        ensures
            final(self).orders@ == survivors(old(self).orders@, delta_ms as int),
            expired@ == expired_ids(old(self).orders@, delta_ms as int),
            final(self).next_id == old(self).next_id,
            final(self).templates == old(self).templates,
    {
        let ghost all = self.orders@;
        let mut rest: Vec<Order> = Vec::new();
        std::mem::swap(&mut rest, &mut self.orders);
        let mut expired: Vec<u32> = Vec::new();
        let n = rest.len();
        let mut i: usize = 0;
        while i < n
            invariant
                n == all.len(),
                i <= n,
                rest@ == all.skip(i as int),
                self.orders@ == survivors(all.take(i as int), delta_ms as int),
                expired@ == expired_ids(all.take(i as int), delta_ms as int),
                self.next_id == old(self).next_id,
                self.templates == old(self).templates,
            decreases n - i,
        {
            let mut o = rest.remove(0);
            assert(o == all[i as int]);
            assert(all.take(i as int + 1).drop_last() =~= all.take(i as int));
            assert(all.skip(i as int + 1) =~= all.skip(i as int).remove(0));
            if o.time_remaining_ms > delta_ms {
                o.time_remaining_ms = o.time_remaining_ms - delta_ms;
                self.orders.push(o);
            } else {
                expired.push(o.id);
            }
            i = i + 1;
        }
        assert(all.take(n as int) =~= all);
        expired
    }

    /// What topping the panel up does: the existing orders stay in front;
    /// the added orders, at most up to `MAX_ORDERS`, take consecutive ids and
    /// are each made from a template whose items are all known.
    pub open spec fn fill_post(&self, new: Orders, db: ItemDatabase) -> bool {
        &&& new.templates_view() == self.templates_view()
        &&& new.next_id >= self.next_id
        &&& new.orders@.len() == self.orders@.len() + (new.next_id
                    - self.next_id)
        &&& self.orders@.len() >= MAX_ORDERS ==> new.orders@ == self.orders@
        &&& self.orders@.len() < MAX_ORDERS ==> new.orders@.len() <= MAX_ORDERS
        &&& new.orders@.subrange(0, self.orders@.len() as int) == self.orders@
        &&& forall|j: int|
                    self.orders@.len() <= j < new.orders@.len() ==> exists|k: int|
                        self.made_from(
                            #[trigger] new.orders@[j],
                            k,
                            (self.next_id + j - self.orders@.len()) as u32,
                        ) && template_valid(db, self.templates_view()[k].0)
        &&& (exists|k: int|
                    0 <= k < self.templates_view().len() && template_valid(
                        db,
                        #[trigger] self.templates_view()[k].0,
                    )) || new.orders@ == self.orders@
        &&& self.all_templates_usable(db) ==> new.orders@.len() >= MAX_ORDERS
    }

    /// There is at least one template and every template lists only known
    /// items, so that no draw can fail.
    pub open spec fn all_templates_usable(&self, db: ItemDatabase) -> bool {
        &&& self.templates_view().len() > 0
        &&& forall|k: int|
            0 <= k < self.templates_view().len() ==> template_valid(
                db,
                #[trigger] self.templates_view()[k].0,
            )
    }

    /// Tops the panel up to `MAX_ORDERS` orders, stopping early when no
    /// order could be drawn; when every template is usable the panel always
    /// ends full.
    pub fn fill_orders(&mut self, db: &ItemDatabase)
        requires
            old(self).orders@.len() < MAX_ORDERS ==> old(self).next_id + MAX_ORDERS
                - old(self).orders@.len() <= u32::MAX,
        ensures
            old(self).fill_post(*final(self), *db),
    {
        let ghost n0 = self.orders@.len();
        while self.orders.len() < MAX_ORDERS
            invariant
                self.templates_view() == old(self).templates_view(),
                n0 == old(self).orders@.len(),
                n0 < MAX_ORDERS ==> old(self).next_id + MAX_ORDERS - n0 <= u32::MAX,
                self.next_id >= old(self).next_id,
                self.orders@.len() == n0 + (self.next_id - old(self).next_id),
                self.next_id - old(self).next_id <= MAX_ORDERS,
                n0 < MAX_ORDERS ==> self.orders@.len() <= MAX_ORDERS,
                n0 >= MAX_ORDERS ==> self.orders@ == old(self).orders@,
                self.orders@.subrange(0, n0 as int) == old(self).orders@,
                forall|j: int|
                    n0 <= j < self.orders@.len() ==> exists|k: int|
                        old(self).made_from(
                            #[trigger] self.orders@[j],
                            k,
                            (old(self).next_id + j - n0) as u32,
                        ) && template_valid(*db, old(self).templates_view()[k].0),
                (exists|k: int|
                    0 <= k < old(self).templates_view().len() && template_valid(
                        *db,
                        #[trigger] old(self).templates_view()[k].0,
                    )) || self.orders@ == old(self).orders@,
            ensures
                self.orders@.len() >= MAX_ORDERS || !old(self).all_templates_usable(*db),
            decreases MAX_ORDERS - self.orders@.len(),
        {
            let ghost before = self.orders@;
            assert(self.next_id < u32::MAX);
            match self.generate_order(db) {
                Some(order) => {
                    self.orders.push(order);
                    assert(self.orders@.subrange(0, n0 as int) =~= before.subrange(0, n0 as int));
                    assert forall|j: int| n0 <= j < self.orders@.len() implies exists|k: int|
                        old(self).made_from(
                            #[trigger] self.orders@[j],
                            k,
                            (old(self).next_id + j - n0) as u32,
                        ) && template_valid(*db, old(self).templates_view()[k].0) by {
                        if j < before.len() {
                            assert(self.orders@[j] == before[j]);
                        }
                    }
                },
                None => {
                    break;
                },
            }
        }
    }

    /// Position of the first order with id `order_id`, or the number of
    /// orders when there is none.
    fn find_order(&self, order_id: u32) -> (k: usize)
        ensures
            k <= self.orders@.len(),
            k == self.orders@.len() ==> order_index_from(self.orders@, order_id, 0) == -1,
            k < self.orders@.len() ==> order_index_from(self.orders@, order_id, 0) == k,
    {
        let n = self.orders.len();
        let mut k: usize = 0;
        while k < n
            invariant
                n == self.orders@.len(),
                k <= n,
                order_index_from(self.orders@, order_id, 0) == order_index_from(
                    self.orders@,
                    order_id,
                    k as int,
                ),
            decreases n - k,
        {
            if self.orders[k].id == order_id {
                return k;
            }
            k = k + 1;
        }
        k
    }

    /// Removes every order whose id is `order_id`, keeping the others in order.
    fn remove_order(&mut self, order_id: u32)
        ensures
            final(self).orders@ == without_id(old(self).orders@, order_id),
            final(self).next_id == old(self).next_id,
            final(self).templates == old(self).templates,
    {
        let ghost all = self.orders@;
        let mut i: usize = 0;
        let ghost mut p: int = 0;
        assert(all.take(0) =~= Seq::<Order>::empty());
        while i < self.orders.len()
            invariant
                0 <= i <= p <= all.len(),
                self.orders@.len() == i + (all.len() - p),
                self.orders@.subrange(0, i as int) == without_id(all.take(p), order_id),
                self.orders@.subrange(i as int, self.orders@.len() as int) == all.skip(p),
                self.next_id == old(self).next_id,
                self.templates == old(self).templates,
            decreases all.len() - p,
        {
            let ghost before = self.orders@;
            assert(p < all.len());
            assert(before.subrange(i as int, before.len() as int)[0] == before[i as int]);
            assert(all.skip(p)[0] == all[p]);
            assert(before[i as int] == all[p]);
            assert forall|q: int| i <= q < before.len() implies #[trigger] before[q] == all[p + q
                - i] by {
                assert(before.subrange(i as int, before.len() as int)[q - i] == before[q]);
                assert(all.skip(p)[q - i] == all[p + q - i]);
            }
            assert(all.take(p + 1).drop_last() =~= all.take(p));
            assert(all.take(p + 1).last() == all[p]);
            if self.orders[i].id == order_id {
                self.orders.remove(i);
                assert(self.orders@.subrange(0, i as int) =~= before.subrange(0, i as int));
                assert(self.orders@.subrange(i as int, self.orders@.len() as int) =~= all.skip(
                    p + 1,
                ));
            } else {
                assert(self.orders@.subrange(0, i + 1) =~= before.subrange(0, i as int).push(
                    all[p],
                ));
                i = i + 1;
                assert(self.orders@.subrange(i as int, self.orders@.len() as int) =~= all.skip(
                    p + 1,
                ));
            }
            proof {
                p = p + 1;
            }
        }
        assert(all.take(p) =~= all);
        assert(self.orders@.subrange(0, i as int) =~= self.orders@);
    }

    /// What handing in the pieces of order `order_id` from the board
    /// contents `board` does (see `assign_cells`).
    pub open spec fn fulfill_post(
        &self,
        new: Orders,
        order_id: u32,
        board: Seq<Option<Seq<char>>>,
        r: Option<(u64, Vec<usize>)>,
    ) -> bool {
        let k = order_index_from(self.orders@, order_id, 0);
        &&& new.next_id == self.next_id
        &&& new.templates == self.templates
        &&& if k < 0 {
            r is None && new.orders@ == self.orders@
        } else {
            match assign_cells(board, strings_view(self.orders@[k].items@)) {
                None => r is None && new.orders@ == self.orders@,
                Some(used) => {
                    &&& r matches Some((reward, cells)) && reward == self.orders@[k].coin_reward
                        && cells@ == used
                    &&& new.orders@ == without_id(self.orders@, order_id)
                },
            }
        }
    }

    /// Hands in the pieces an order asks for: for each required item in
    /// turn the first board cell holding it that is not already taken.
    /// When every item is found the order is removed and the coin reward
    /// and the cells to clear are returned; otherwise nothing changes.
    pub fn try_fulfill(&mut self, order_id: u32, board_items: &[Option<String>]) -> (r: Option<
        (u64, Vec<usize>),
    >)
        ensures
            old(self).fulfill_post(*final(self), order_id, cells_view(board_items@), r),
    {
        let n = self.orders.len();
        let k = self.find_order(order_id);
        if k == n {
            return None;
        }
        assert(order_index_from(self.orders@, order_id, 0) == k as int);
        let ghost board = cells_view(board_items@);
        let ghost req = strings_view(self.orders@[k as int].items@);
        let reward = self.orders[k].coin_reward;
        let mut used: Vec<usize> = Vec::new();
        let mut j: usize = 0;
        assert(req.take(0) =~= Seq::<Seq<char>>::empty());
        while j < self.orders[k].items.len()
            invariant
                k < self.orders@.len(),
                self.orders@ == old(self).orders@,
                self.next_id == old(self).next_id,
                self.templates == old(self).templates,
                order_index_from(old(self).orders@, order_id, 0) == k,
                req == strings_view(self.orders@[k as int].items@),
                board == cells_view(board_items@),
                j <= req.len(),
                assign_cells(board, req.take(j as int)) == Some(used@),
            decreases req.len() - j,
        {
            let item = &self.orders[k].items[j];
            assert(req.take(j + 1).drop_last() =~= req.take(j as int));
            assert(req.take(j + 1).last() == item@);
            let found = find_free_cell(board_items, item, &used);
            match found {
                Some(f) => {
                    used.push(f);
                },
                None => {
                    proof {
                        lemma_assign_prefix(board, req, j as int + 1);
                    }
                    return None;
                },
            }
            j = j + 1;
        }
        assert(req.take(j as int) =~= req);
        self.remove_order(order_id);
        Some((reward, used))
    }
}


// ── Covering a list of required items ────────────────────────────────────────

/// Number of occurrences of `x` in `r`.
pub open spec fn occ(r: Seq<Seq<char>>, x: Seq<char>) -> nat
    decreases r.len(),
{
    if r.len() == 0 {
        0
    } else {
        occ(r.drop_last(), x) + if r.last() == x {
            1nat
        } else {
            0nat
        }
    }
}

/// Number of cells among the first `m` of `b` holding `x`.
pub open spec fn cnt_upto(b: Seq<Option<Seq<char>>>, x: Seq<char>, m: int) -> nat
    decreases m,
{
    if m <= 0 {
        0
    } else {
        cnt_upto(b, x, m - 1) + if b[m - 1] == Some(x) {
            1nat
        } else {
            0nat
        }
    }
}

/// Number of cells of `b` holding `x`.
pub open spec fn cnt(b: Seq<Option<Seq<char>>>, x: Seq<char>) -> nat {
    cnt_upto(b, x, b.len() as int)
}

/// The board `b` holds at least as many pieces of every item as `r` asks for.
pub open spec fn covers(b: Seq<Option<Seq<char>>>, r: Seq<Seq<char>>) -> bool {
    forall|x: Seq<char>| #[trigger] occ(r, x) <= cnt(b, x)
}

/// Cells among the first `m` holding `x`, among `u` (`inside`) or not.
spec fn cnt_split(b: Seq<Option<Seq<char>>>, x: Seq<char>, u: Seq<usize>, inside: bool, m: int) -> nat
    decreases m,
{
    if m <= 0 {
        0
    } else {
        cnt_split(b, x, u, inside, m - 1) + if b[m - 1] == Some(x) && u.contains((m - 1) as usize)
            == inside {
            1nat
        } else {
            0nat
        }
    }
}

proof fn lemma_cnt_split(b: Seq<Option<Seq<char>>>, x: Seq<char>, u: Seq<usize>, m: int)
    ensures
        cnt_upto(b, x, m) == cnt_split(b, x, u, true, m) + cnt_split(b, x, u, false, m),
    decreases m,
{
    if m > 0 {
        lemma_cnt_split(b, x, u, m - 1);
    }
}

proof fn lemma_cnt_prefix(b: Seq<Option<Seq<char>>>, c: Seq<Option<Seq<char>>>, x: Seq<char>, m: int)
    requires
        m <= b.len(),
        m <= c.len(),
        forall|j: int| 0 <= j < m ==> b[j] == c[j],
    ensures
        cnt_upto(b, x, m) == cnt_upto(c, x, m),
    decreases m,
{
    if m > 0 {
        lemma_cnt_prefix(b, c, x, m - 1);
    }
}

/// No free cell holding `x` at or after `i` exactly when none is counted.
proof fn lemma_free_none(b: Seq<Option<Seq<char>>>, x: Seq<char>, u: Seq<usize>, m: int)
    requires
        0 <= m <= b.len(),
        b.len() <= usize::MAX,
    ensures
        (cnt_split(b, x, u, false, m) == 0) == (forall|j: int|
            0 <= j < m ==> !(b[j] == Some(x) && !u.contains(j as usize))),
    decreases m,
{
    if m > 0 {
        lemma_free_none(b, x, u, m - 1);
        if cnt_split(b, x, u, false, m) == 0 {
            assert forall|j: int| 0 <= j < m implies !(b[j] == Some(x) && !u.contains(
                j as usize,
            )) by {
                if j < m - 1 {
                }
            }
        }
    }
}

proof fn lemma_free_cell_none(b: Seq<Option<Seq<char>>>, x: Seq<char>, u: Seq<usize>, i: int)
    requires
        0 <= i,
    ensures
        (free_cell_from(b, x, u, i) == -1) == (forall|j: int|
            i <= j < b.len() ==> !(b[j] == Some(x) && !u.contains(j as usize))),
    decreases b.len() - i,
{
    if i < b.len() {
        lemma_free_cell_none(b, x, u, i + 1);
        if !(b[i] == Some(x) && !u.contains(i as usize)) {
            if free_cell_from(b, x, u, i) == -1 {
                assert forall|j: int| i <= j < b.len() implies !(b[j] == Some(x) && !u.contains(
                    j as usize,
                )) by {
                    if j > i {
                    }
                }
            }
        }
    }
}

/// Adding a new position `v` to `u` adds it to the inside count when it holds `x`.
proof fn lemma_cnt_in_push(
    b: Seq<Option<Seq<char>>>,
    x: Seq<char>,
    u: Seq<usize>,
    v: usize,
    m: int,
)
    requires
        !u.contains(v),
        m <= b.len(),
        b.len() <= usize::MAX,
    ensures
        cnt_split(b, x, u.push(v), true, m) == cnt_split(b, x, u, true, m) + if 0 <= v < m
            && b[v as int] == Some(x) {
            1nat
        } else {
            0nat
        },
    decreases m,
{
    if m > 0 {
        lemma_cnt_in_push(b, x, u, v, m - 1);
        let j = m - 1;
        assert(u.push(v).contains(j as usize) == (u.contains(j as usize) || v == j as usize)) by {
            if u.push(v).contains(j as usize) {
                let w = choose|w: int| 0 <= w < u.push(v).len() && u.push(v)[w] == j as usize;
                if w < u.len() {
                    assert(u[w] == j as usize);
                }
            }
            if u.contains(j as usize) {
                let w = choose|w: int| 0 <= w < u.len() && u[w] == j as usize;
                assert(u.push(v)[w] == j as usize);
            }
            if v == j as usize {
                assert(u.push(v)[u.len() as int] == v);
            }
        }
    }
}

/// The cells chosen for `r` holding `x` are as many as `r` asks for `x`.
proof fn lemma_assign_inside(b: Seq<Option<Seq<char>>>, r: Seq<Seq<char>>, x: Seq<char>)
    requires
        b.len() <= usize::MAX,
        assign_cells(b, r) is Some,
    ensures
        cnt_split(b, x, assign_cells(b, r)->Some_0, true, b.len() as int) == occ(r, x),
    decreases r.len(),
{
    if r.len() == 0 {
        lemma_cnt_split(b, x, Seq::<usize>::empty(), b.len() as int);
        lemma_inside_empty(b, x, b.len() as int);
    } else {
        let r0 = r.drop_last();
        let u0 = assign_cells(b, r0)->Some_0;
        lemma_assign_inside(b, r0, x);
        let f = free_cell_from(b, r.last(), u0, 0);
        lemma_free_cell_from(b, r.last(), u0, 0);
        lemma_cnt_in_push(b, x, u0, f as usize, b.len() as int);
    }
}

proof fn lemma_inside_empty(b: Seq<Option<Seq<char>>>, x: Seq<char>, m: int)
    ensures
        cnt_split(b, x, Seq::<usize>::empty(), true, m) == 0,
    decreases m,
{
    if m > 0 {
        lemma_inside_empty(b, x, m - 1);
    }
}

/// Handing in succeeds exactly when the board covers the order.
pub proof fn lemma_assign_iff_covers(b: Seq<Option<Seq<char>>>, r: Seq<Seq<char>>)
    requires
        b.len() <= usize::MAX,
    ensures
        (assign_cells(b, r) is Some) == covers(b, r),
    decreases r.len(),
{
    if r.len() == 0 {
        assert forall|y: Seq<char>| #[trigger] occ(r, y) <= cnt(b, y) by {}
    } else {
        let r0 = r.drop_last();
        let x = r.last();
        lemma_assign_iff_covers(b, r0);
        match assign_cells(b, r0) {
            None => {
                let y = choose|y: Seq<char>| !(#[trigger] occ(r0, y) <= cnt(b, y));
                assert(occ(r, y) >= occ(r0, y));
            },
            Some(u0) => {
                let f = free_cell_from(b, x, u0, 0);
                lemma_assign_inside(b, r0, x);
                lemma_cnt_split(b, x, u0, b.len() as int);
                lemma_free_cell_none(b, x, u0, 0);
                lemma_free_none(b, x, u0, b.len() as int);
                // free cell exists  <==>  more pieces of x than r0 asks for
                assert((f >= 0) == (cnt(b, x) > occ(r0, x))) by {
                    lemma_free_cell_from(b, x, u0, 0);
                }
                if f >= 0 {
                    assert forall|y: Seq<char>| #[trigger] occ(r, y) <= cnt(b, y) by {
                        assert(occ(r0, y) <= cnt(b, y));
                    }
                } else {
                    assert(!(occ(r, x) <= cnt(b, x)));
                }
            },
        }
    }
}

proof fn lemma_occ_remove(r: Seq<Seq<char>>, p: int, y: Seq<char>)
    requires
        0 <= p < r.len(),
    ensures
        occ(r, y) == occ(r.remove(p), y) + if r[p] == y {
            1nat
        } else {
            0nat
        },
    decreases r.len(),
{
    if p == r.len() - 1 {
        assert(r.remove(p) =~= r.drop_last());
    } else {
        lemma_occ_remove(r.drop_last(), p, y);
        assert(r.remove(p) =~= r.drop_last().remove(p).push(r.last()));
        assert(r.remove(p).drop_last() =~= r.drop_last().remove(p));
    }
}

proof fn lemma_occ_zero(r: Seq<Seq<char>>, x: Seq<char>)
    requires
        forall|k: int| 0 <= k < r.len() ==> r[k] != x,
    ensures
        occ(r, x) == 0,
    decreases r.len(),
{
    if r.len() > 0 {
        lemma_occ_zero(r.drop_last(), x);
    }
}

proof fn lemma_first_pos_none(r: Seq<Seq<char>>, x: Seq<char>, i: int)
    requires
        0 <= i,
        first_pos(r, x, i) == -1,
    ensures
        forall|k: int| i <= k < r.len() ==> r[k] != x,
    decreases r.len() - i,
{
    if i < r.len() {
        lemma_first_pos_none(r, x, i + 1);
    }
}

/// After crossing off, each item is missing as often as the order asks
/// for it beyond what the board holds.
proof fn lemma_remaining_occ(r: Seq<Seq<char>>, b: Seq<Option<Seq<char>>>, y: Seq<char>)
    ensures
        occ(remaining_after(r, b), y) == if occ(r, y) >= cnt(b, y) {
            (occ(r, y) - cnt(b, y)) as nat
        } else {
            0nat
        },
    decreases b.len(),
{
    if b.len() > 0 {
        let b0 = b.drop_last();
        lemma_remaining_occ(r, b0, y);
        lemma_cnt_prefix(b, b0, y, b.len() - 1);
        let rr = remaining_after(r, b0);
        match b.last() {
            Some(x) => {
                let p = first_pos(rr, x, 0);
                lemma_first_pos(rr, x, 0);
                lemma_remaining_occ(r, b0, x);
                lemma_cnt_prefix(b, b0, x, b.len() - 1);
                if p >= 0 {
                    lemma_occ_remove(rr, p, y);
                    lemma_occ_remove(rr, p, x);
                } else {
                    lemma_first_pos_none(rr, x, 0);
                    lemma_occ_zero(rr, x);
                }
            },
            None => {},
        }
    }
}

/// Crossing off leaves nothing exactly when the board covers the order.
pub proof fn lemma_remaining_iff_covers(r: Seq<Seq<char>>, b: Seq<Option<Seq<char>>>)
    ensures
        (remaining_after(r, b).len() == 0) == covers(b, r),
{
    let rem = remaining_after(r, b);
    if rem.len() == 0 {
        assert forall|y: Seq<char>| #[trigger] occ(r, y) <= cnt(b, y) by {
            lemma_remaining_occ(r, b, y);
        }
    } else {
        let y = rem[0];
        lemma_occ_remove(rem, 0, y);
        lemma_remaining_occ(r, b, y);
        assert(!(occ(r, y) <= cnt(b, y)));
    }
}

/// The submit button of an order is shown (`Order::can_complete`) exactly
/// when submitting it succeeds (`Orders::try_fulfill` finds its cells),
/// namely when the board holds every required item as often as the order
/// lists it.
pub proof fn law_complete_iff_fulfill(b: Seq<Option<Seq<char>>>, r: Seq<Seq<char>>)
    requires
        b.len() <= usize::MAX,
    ensures
        (remaining_after(r, b).len() == 0) == covers(b, r),
        (assign_cells(b, r) is Some) == covers(b, r),
{
    lemma_remaining_iff_covers(r, b);
    lemma_assign_iff_covers(b, r);
}


/// The panel never holds more than `MAX_ORDERS` orders: topping up a panel
/// within the limit stays within it, and handing an order in only removes
/// orders.
pub proof fn law_at_most_three_orders(
    before: Orders,
    after_fulfill: Orders,
    after_fill: Orders,
    db: ItemDatabase,
    order_id: u32,
    board: Seq<Option<Seq<char>>>,
    r: Option<(u64, Vec<usize>)>,
)
    requires
        before.orders@.len() <= MAX_ORDERS,
        before.fulfill_post(after_fulfill, order_id, board, r),
        after_fulfill.fill_post(after_fill, db),
    ensures
        after_fulfill.orders@.len() <= MAX_ORDERS,
        after_fill.orders@.len() <= MAX_ORDERS,
{
    lemma_without_id_len(before.orders@, order_id);
}

proof fn lemma_without_id_len(orders: Seq<Order>, id: u32)
    ensures
        without_id(orders, id).len() <= orders.len(),
    decreases orders.len(),
{
    if orders.len() > 0 {
        lemma_without_id_len(orders.drop_last(), id);
    }
}

/// Every order of the panel has an id below the next id to be given out.
pub open spec fn ids_below_next(p: Orders) -> bool {
    forall|j: int| 0 <= j < p.orders@.len() ==> (#[trigger] p.orders@[j]).id < p.next_id
}

/// Removing the orders with id `id` keeps only orders of the list, none of
/// which has that id.
proof fn lemma_without_id_elems(orders: Seq<Order>, id: u32, bound: u32)
    requires
        forall|j: int| 0 <= j < orders.len() ==> (#[trigger] orders[j]).id < bound,
    ensures
        forall|j: int|
            0 <= j < without_id(orders, id).len() ==> (#[trigger] without_id(orders, id)[j]).id != id
                && without_id(orders, id)[j].id < bound,
    decreases orders.len(),
{
    if orders.len() > 0 {
        let prev = orders.drop_last();
        assert forall|j: int| 0 <= j < prev.len() implies (#[trigger] prev[j]).id < bound by {
            assert(prev[j] == orders[j]);
        }
        lemma_without_id_elems(prev, id, bound);
        let w = without_id(prev, id);
        if orders.last().id != id {
            assert forall|j: int| 0 <= j < w.push(orders.last()).len() implies (#[trigger] w.push(
                orders.last(),
            )[j]).id != id && w.push(orders.last())[j].id < bound by {
                if j < w.len() {
                    assert(w.push(orders.last())[j] == w[j]);
                }
            }
        }
    }
}

/// Handing in an order (whose id was given out before) and topping the
/// panel up, which is what submitting an order does to the panel, leaves no
/// order with the handed-in id, and keeps every id below the next id to be
/// given out.
pub proof fn law_submitted_order_gone(before: Orders, mid: Orders, after: Orders, db: ItemDatabase, id: u32)
    requires
        ids_below_next(before),
        id < before.next_id,
        mid.orders@ == without_id(before.orders@, id),
        mid.next_id == before.next_id,
        mid.fill_post(after, db),
    ensures
        forall|j: int| 0 <= j < after.orders@.len() ==> (#[trigger] after.orders@[j]).id != id,
        ids_below_next(after),
{
    lemma_without_id_elems(before.orders@, id, before.next_id);
    let n = mid.orders@.len();
    assert forall|j: int| 0 <= j < after.orders@.len() implies (#[trigger] after.orders@[j]).id != id
        && after.orders@[j].id < after.next_id by {
        if j < n {
            assert(after.orders@.subrange(0, n as int)[j] == after.orders@[j]);
            assert(after.orders@[j] == mid.orders@[j]);
        } else {
            let k = choose|k: int|
                mid.made_from(after.orders@[j], k, (mid.next_id + j - n) as u32) && template_valid(
                    db,
                    mid.templates_view()[k].0,
                );
            assert(after.orders@[j].id == mid.next_id + j - n);
        }
    }
}

/// A duration of `total` whole seconds as `"{h}h {m}m {s}s"` when it lasts
/// an hour or more, `"{m}m {s}s"` when it lasts a minute or more, else
/// `"{s}s"`.
pub open spec fn time_text(total: nat) -> Seq<char> {
    let h = total / 3600;
    let m = total % 3600 / 60;
    let s = total % 60;
    if h > 0 {
        decimal(h) + "h "@ + decimal(m) + "m "@ + decimal(s) + "s"@
    } else if m > 0 {
        decimal(m) + "m "@ + decimal(s) + "s"@
    } else {
        decimal(s) + "s"@
    }
}

/// Formats a duration of `total_secs` whole seconds (see `time_text`).
pub fn format_time(total_secs: u64) -> (r: String)
    ensures
        r@ == time_text(total_secs as nat),
{
    let h = total_secs / 3600;
    let m = total_secs % 3600 / 60;
    let s = total_secs % 60;
    let mut out = String::new();
    proof {
        reveal_strlit("h ");
        reveal_strlit("m ");
        reveal_strlit("s");
    }
    if h > 0 {
        let digits = decimal_string(h);
        out.append(digits.as_str());
        out.append("h ");
    }
    if h > 0 || m > 0 {
        let digits = decimal_string(m);
        out.append(digits.as_str());
        out.append("m ");
    }
    let digits = decimal_string(s);
    out.append(digits.as_str());
    out.append("s");
    assert(out@ =~= time_text(total_secs as nat));
    out
}

} // verus!
