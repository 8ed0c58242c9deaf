//! The 7×9 board: placement, neighbourhood search and the click / drag
//! rules (select, move, merge, swap, generator activation).
use vstd::prelude::*;

use crate::items::{opt_str_view, ItemDatabase};

verus! {

/// Number of columns of the board.
pub const BOARD_COLS: usize = 7;

/// Number of rows of the board.
pub const BOARD_ROWS: usize = 9;

/// Number of cells of the board.
pub const BOARD_SIZE: usize = 63;

/// One cell of the board.
#[derive(Debug)]
pub struct Cell {
    /// The item occupying this cell, or `None` when the cell is empty.
    pub item_id: Option<String>,
}

/// The board: its cells in row-major order, the selected cell and a flag
/// telling that the contents changed since the last redraw.
#[derive(Debug)]
pub struct Board {
    pub cells: Vec<Cell>,
    /// Currently selected cell (click-to-select mechanic).
    pub selected: Option<usize>,
    /// The board contents changed since the last redraw.
    pub dirty: bool,
}

/// Outcome of a click on a cell or of a drag between two cells.
#[derive(Debug)]
pub enum ClickAction {
    Nothing,
    Selected(usize),
    Deselected,
    Merged { source: usize, target: usize, result: String },
    Moved { from: usize, to: usize, item: String },
    Swapped { from: usize, to: usize },
    GeneratorActivated(usize, String),
}

/// Index of the `k`-th neighbour of cell `i` (`k` ranges over a 3×3 block
/// in row-major order, `k == 4` being the cell itself), or -1 when that
/// neighbour is the cell itself or lies off the board.
pub open spec fn neighbor(i: int, k: int) -> int {
    let col = i % 7;
    let row = i / 7;
    let dr = k / 3 - 1;
    let dc = k % 3 - 1;
    if k == 4 || col + dc < 0 || col + dc >= 7 || row + dr < 0 || row + dr >= 9 {
        -1
    } else {
        (row + dr) * 7 + col + dc
    }
}

/// First empty neighbour of `i` among neighbours `k..9`, or -1.
pub open spec fn adjacent_from(ids: Seq<Option<Seq<char>>>, i: int, k: int) -> int
    decreases 9 - k,
{
    if k < 0 || k >= 9 {
        -1
    } else if neighbor(i, k) >= 0 && ids[neighbor(i, k)] is None {
        neighbor(i, k)
    } else {
        adjacent_from(ids, i, k + 1)
    }
}

/// First empty cell at or after `j`, or -1.
pub open spec fn empty_from(ids: Seq<Option<Seq<char>>>, j: int) -> int
    decreases ids.len() - j,
{
    if j < 0 || j >= ids.len() {
        -1
    } else if ids[j] is None {
        j
    } else {
        empty_from(ids, j + 1)
    }
}

/// Where `place_near` puts a new piece produced at `i`: the first empty
/// neighbour, else the first empty cell, else -1.
pub open spec fn near_target(ids: Seq<Option<Seq<char>>>, i: int) -> int {
    if adjacent_from(ids, i, 0) >= 0 {
        adjacent_from(ids, i, 0)
    } else {
        empty_from(ids, 0)
    }
}

pub proof fn lemma_neighbor_range(i: int, k: int)
    requires
        0 <= i,
        0 <= k < 9,
    ensures
        neighbor(i, k) == -1 || (0 <= neighbor(i, k) < 63 && neighbor(i, k) != i),
{
}

pub proof fn lemma_adjacent_from(ids: Seq<Option<Seq<char>>>, i: int, k: int)
    requires
        ids.len() == 63,
        0 <= i,
    ensures
        adjacent_from(ids, i, k) == -1 || (0 <= adjacent_from(ids, i, k) < 63
            && adjacent_from(ids, i, k) != i && ids[adjacent_from(ids, i, k)] is None),
    decreases 9 - k,
{
    if k < 0 || k >= 9 {
    } else {
        lemma_neighbor_range(i, k);
        if neighbor(i, k) >= 0 && ids[neighbor(i, k)] is None {
        } else {
            lemma_adjacent_from(ids, i, k + 1);
        }
    }
}

pub proof fn lemma_empty_from(ids: Seq<Option<Seq<char>>>, j: int)
    ensures
        empty_from(ids, j) == -1 || (j <= empty_from(ids, j) < ids.len() && ids[empty_from(
            ids,
            j,
        )] is None),
        forall|m: int| 0 <= j <= m < ids.len() && m < empty_from(ids, j) ==> ids[m] is Some,
        empty_from(ids, j) == -1 ==> forall|m: int| 0 <= j <= m < ids.len() ==> ids[m] is Some,
    decreases ids.len() - j,
{
    if j < 0 || j >= ids.len() {
    } else if ids[j] is None {
    } else {
        lemma_empty_from(ids, j + 1);
    }
}

/// The id of an optional piece, the empty id for an empty cell.
pub open spec fn id_or_empty(o: Option<Seq<char>>) -> Seq<char> {
    match o {
        Some(s) => s,
        None => Seq::empty(),
    }
}

/// What a click on cell `c` does, given the board `old` before the click.
/// `new` is the board after the click and `r` the reported action.
pub open spec fn click_post(db: ItemDatabase, old: Board, new: Board, c: int, r: ClickAction) -> bool {
    let ids = old.ids();
    let ci = ids[c];
    match old.selected {
        None => {
            &&& new.ids() == ids
            &&& new.dirty == old.dirty
            &&& if ci is Some {
                new.selected == Some(c as usize) && r == ClickAction::Selected(c as usize)
            } else {
                new.selected is None && r is Nothing
            }
        },
        Some(s) => if s == c {
            // a second click on the selected cell
            &&& new.ids() == ids
            &&& new.dirty == old.dirty
            &&& new.selected is None
            &&& if db.spec_get(id_or_empty(ci)) is Some && db.spec_get(
                id_or_empty(ci),
            )->Some_0.is_generator {
                r matches ClickAction::GeneratorActivated(i, id) && i == c && id@ == id_or_empty(ci)
            } else {
                r is Deselected
            }
        } else {
            let si = ids[s as int];
            if si is Some && ci is Some && db.spec_can_merge(si->Some_0, ci->Some_0) {
                &&& new.ids() == ids.update(s as int, None).update(
                    c,
                    Some(db.spec_merge_result(si->Some_0)),
                )
                &&& new.selected is None
                &&& new.dirty
                &&& r matches ClickAction::Merged { source, target, result } && source == s
                    && target == c && result@ == db.spec_merge_result(si->Some_0)
            } else if ci is None && si is Some {
                &&& new.ids() == ids.update(s as int, None).update(c, si)
                &&& new.selected is None
                &&& new.dirty
                &&& r matches ClickAction::Moved { from, to, item } && from == s && to == c
                    && item@ == si->Some_0
            } else if ci is Some {
                &&& new.ids() == ids
                &&& new.dirty == old.dirty
                &&& new.selected == Some(c as usize)
                &&& r == ClickAction::Selected(c as usize)
            } else {
                &&& new.ids() == ids
                &&& new.dirty == old.dirty
                &&& new.selected is None
                &&& r is Nothing
            }
        },
    }
}

/// What dragging the piece of cell `from` onto cell `to` does: two pieces
/// that merge are merged into `to`, two pieces that do not are swapped, a
/// piece dropped on an empty cell moves there, and nothing happens when
/// `from` is empty.
pub open spec fn drag_post(
    db: ItemDatabase,
    old: Board,
    new: Board,
    from: int,
    to: int,
    r: ClickAction,
) -> bool {
    let ids = old.ids();
    let fi = ids[from];
    let ti = ids[to];
    if fi is Some && ti is Some {
        if db.spec_can_merge(fi->Some_0, ti->Some_0) {
            &&& new.ids() == ids.update(from, None).update(
                to,
                Some(db.spec_merge_result(fi->Some_0)),
            )
            &&& new.selected is None
            &&& new.dirty
            &&& r matches ClickAction::Merged { source, target, result } && source == from
                && target == to && result@ == db.spec_merge_result(fi->Some_0)
        } else {
            &&& new.ids() == ids.update(from, ti).update(to, fi)
            &&& new.selected is None
            &&& new.dirty
            &&& r == ClickAction::Swapped { from: from as usize, to: to as usize }
        }
    } else if ti is None && fi is Some {
        &&& new.ids() == ids.update(from, None).update(to, fi)
        &&& new.selected is None
        &&& new.dirty
        &&& r matches ClickAction::Moved { from: f, to: t, item } && f == from && t == to
            && item@ == fi->Some_0
    } else {
        &&& new.ids() == ids
        &&& new.selected == old.selected
        &&& new.dirty == old.dirty
        &&& r is Nothing
    }
}

/// Cell index and (column, row) position are inverse to each other:
/// `pos(idx(col, row)) == (col, row)` for every column of the board, and
/// `idx(pos(i)) == i` for every index.
pub proof fn law_idx_pos_roundtrip(col: int, row: int, i: int)
    requires
        0 <= col < BOARD_COLS,
        0 <= row,
        0 <= i,
    ensures
        (row * BOARD_COLS + col) % (BOARD_COLS as int) == col,
        (row * BOARD_COLS + col) / (BOARD_COLS as int) == row,
        (i / (BOARD_COLS as int)) * BOARD_COLS + i % (BOARD_COLS as int) == i,
{
    assert((row * 7 + col) % 7 == col && (row * 7 + col) / 7 == row) by (nonlinear_arith)
        requires
            0 <= col < 7,
            0 <= row,
    ;
    assert((i / 7) * 7 + i % 7 == i) by (nonlinear_arith)
        requires
            0 <= i,
    ;
}

/// Moving a piece onto an empty cell and swapping two pieces keep the
/// contents of the board: the same pieces, the same number of empty cells.
pub proof fn law_move_or_swap_conserves(ids: Seq<Option<Seq<char>>>, from: int, to: int)
    requires
        0 <= from < ids.len(),
        0 <= to < ids.len(),
        from != to,
    ensures
        ids.update(from, ids[to]).update(to, ids[from]).to_multiset() == ids.to_multiset(),
{
    broadcast use vstd::seq_lib::to_multiset_update;
    broadcast use vstd::multiset::group_multiset_properties;

    broadcast use vstd::seq_lib::to_multiset_contains;

    let ms = ids.to_multiset();
    let u1 = ids.update(from, ids[to]);
    assert(u1[to] == ids[to]);
    assert(ids.contains(ids[from]));
    let ms1 = ms.insert(ids[to]).remove(ids[from]);
    assert(u1.to_multiset() == ms1);
    let ms2 = ms1.insert(ids[from]).remove(ids[to]);
    assert(u1.update(to, ids[from]).to_multiset() == ms2);
    assert(ms.count(ids[from]) >= 1);
    assert forall|x| #[trigger] ms2.count(x) == ms.count(x) by {}
    assert(ms2 =~= ms);
}

/// A merge of the pieces of cells `a` and `b` (two distinct cells) removes
/// both pieces, adds the merged piece and leaves one more empty cell.
pub proof fn law_merge_contents(ids: Seq<Option<Seq<char>>>, a: int, b: int, result: Seq<char>)
    requires
        0 <= a < ids.len(),
        0 <= b < ids.len(),
        a != b,
    ensures
        ids.update(a, None).update(b, Some(result)).to_multiset() == ids.to_multiset().remove(
            ids[a],
        ).remove(ids[b]).insert(None).insert(Some(result)),
{
    broadcast use vstd::seq_lib::to_multiset_update;
    broadcast use vstd::multiset::group_multiset_properties;

    broadcast use vstd::seq_lib::to_multiset_contains;

    let ms = ids.to_multiset();
    let u1 = ids.update(a, None);
    assert(u1[b] == ids[b]);
    assert(ids.contains(ids[a]));
    assert(ids.contains(ids[b]));
    let ms1 = ms.insert(None).remove(ids[a]);
    assert(u1.to_multiset() == ms1);
    let ms2 = ms1.insert(Some(result)).remove(ids[b]);
    assert(u1.update(b, Some(result)).to_multiset() == ms2);
    let goal = ms.remove(ids[a]).remove(ids[b]).insert(None).insert(Some(result));
    assert(ms.count(ids[a]) >= 1);
    assert(ms.count(ids[b]) >= 1);
    assert(ids[a] == ids[b] ==> ms.count(ids[a]) >= 2) by {
        if ids[a] == ids[b] {
            let t = ids.remove(a);
            vstd::seq_lib::to_multiset_remove(ids, a);
            assert(t.to_multiset() == ms.remove(ids[a]));
            let bb = if b < a { b } else { b - 1 };
            assert(t[bb] == ids[b]);
            assert(t.contains(ids[b]));
            assert(t.to_multiset().count(ids[b]) >= 1);
        }
    }
    assert forall|x| #[trigger] ms2.count(x) == goal.count(x) by {}
    assert(ms2 =~= goal);
}

/// Dropping a piece on another cell never loses nor duplicates a piece:
/// a move or swap keeps the board contents, and a merge of two equal
/// pieces replaces them by their merge result.
pub proof fn law_drag_contents(
    db: ItemDatabase,
    old: Board,
    new: Board,
    from: int,
    to: int,
    r: ClickAction,
)
    requires
        old.wf(),
        0 <= from < BOARD_SIZE,
        0 <= to < BOARD_SIZE,
        from != to,
        drag_post(db, old, new, from, to, r),
    ensures
        r is Merged ==> old.ids()[from] == old.ids()[to] && new.ids().to_multiset()
            == old.ids().to_multiset().remove(old.ids()[from]).remove(old.ids()[to]).insert(
            None,
        ).insert(Some(db.spec_merge_result(old.ids()[from]->Some_0))),
        !(r is Merged) ==> new.ids().to_multiset() == old.ids().to_multiset(),
{
    let ids = old.ids();
    if ids[from] is Some && ids[to] is Some {
        if db.spec_can_merge(ids[from]->Some_0, ids[to]->Some_0) {
            law_merge_contents(ids, from, to, db.spec_merge_result(ids[from]->Some_0));
        } else {
            law_move_or_swap_conserves(ids, from, to);
        }
    } else if ids[to] is None && ids[from] is Some {
        law_move_or_swap_conserves(ids, from, to);
        assert(ids.update(from, None) == ids.update(from, ids[to]));
    }
}

/// A click never loses nor duplicates a piece: it moves a piece onto an
/// empty cell, merges two equal pieces into their merge result, or leaves
/// the contents alone.
pub proof fn law_click_contents(db: ItemDatabase, old: Board, new: Board, c: int, r: ClickAction)
    requires
        old.wf(),
        0 <= c < BOARD_SIZE,
        click_post(db, old, new, c, r),
    ensures
        r matches ClickAction::Merged { source, target, result } ==> old.ids()[source as int]
            == old.ids()[target as int] && new.ids().to_multiset()
            == old.ids().to_multiset().remove(old.ids()[source as int]).remove(
            old.ids()[target as int],
        ).insert(None).insert(Some(result@)),
        !(r is Merged) ==> new.ids().to_multiset() == old.ids().to_multiset(),
{
    let ids = old.ids();
    if let Some(s) = old.selected {
        if s != c {
            let si = ids[s as int];
            let ci = ids[c];
            if si is Some && ci is Some && db.spec_can_merge(si->Some_0, ci->Some_0) {
                law_merge_contents(ids, s as int, c, db.spec_merge_result(si->Some_0));
            } else if ci is None && si is Some {
                law_move_or_swap_conserves(ids, s as int, c);
                assert(ids.update(s as int, None) == ids.update(s as int, ids[c]));
            }
        }
    }
}

impl Board {
    /// The contents of the cells, in row-major order.
    pub open spec fn ids(&self) -> Seq<Option<Seq<char>>> {
        Seq::new(self.cells@.len(), |i: int| opt_str_view(self.cells@[i].item_id))
    }

    /// The board has its 63 cells and the selection, if any, names one of them.
    pub open spec fn wf(&self) -> bool {
        &&& self.cells@.len() == BOARD_SIZE
        &&& (self.selected matches Some(s) ==> s < BOARD_SIZE)
    }

    /// An empty board with nothing selected.
    pub fn new() -> (b: Self)
        ensures
            b.wf(),
            b.selected is None,
            b.dirty,
            forall|i: int| 0 <= i < BOARD_SIZE ==> #[trigger] b.ids()[i] is None,
    {
        let mut cells: Vec<Cell> = Vec::new();
        let mut i: usize = 0;
        while i < BOARD_SIZE
            invariant
                i <= BOARD_SIZE,
                cells@.len() == i,
                forall|j: int| 0 <= j < i ==> #[trigger] cells@[j].item_id is None,
            decreases BOARD_SIZE - i,
        {
            cells.push(Cell { item_id: None });
            i = i + 1;
        }
        Board { cells, selected: None, dirty: true }
    }

    /// Linear index of the cell at (`col`, `row`).
    pub fn idx(col: usize, row: usize) -> (i: usize)
        requires
            row * BOARD_COLS + col <= usize::MAX,
        ensures
            i == row * BOARD_COLS + col,
    {
        row * BOARD_COLS + col
    }

    /// (column, row) of the cell at linear index `idx`.
    pub fn pos(idx: usize) -> (p: (usize, usize))
        ensures
            p.0 == idx % BOARD_COLS,
            p.1 == idx / BOARD_COLS,
    {
        (idx % BOARD_COLS, idx / BOARD_COLS)
    }

    /// A copy of the item in cell `i`.
    pub fn item_at(&self, i: usize) -> (r: Option<String>)
        requires
            i < self.cells@.len(),
        ensures
            opt_str_view(r) == self.ids()[i as int],
    {
        match &self.cells[i].item_id {
            Some(s) => Some(s.clone()),
            None => None,
        }
    }

    /// Writes `item` into cell `i`.
    fn set_cell(&mut self, i: usize, item: Option<String>)
        requires
            i < old(self).cells@.len(),
        ensures
            final(self).ids() == old(self).ids().update(i as int, opt_str_view(item)),
            final(self).cells@.len() == old(self).cells@.len(),
            final(self).selected == old(self).selected,
            final(self).dirty == old(self).dirty,
    {
        self.cells.set(i, Cell { item_id: item });
        assert(self.ids() =~= old(self).ids().update(i as int, opt_str_view(item)));
    }

    /// Places `item_id` in cell `idx` when that cell is empty; returns whether it did.
    pub fn place(&mut self, idx: usize, item_id: &str) -> (r: bool)
        requires
            idx < old(self).cells@.len(),
        ensures
            r == (old(self).ids()[idx as int] is None),
            r ==> final(self).ids() == old(self).ids().update(idx as int, Some(item_id@)),
            !r ==> final(self).ids() == old(self).ids(),
            final(self).cells@.len() == old(self).cells@.len(),
            final(self).selected == old(self).selected,
            final(self).dirty == (old(self).dirty || r),
    {
        if self.cells[idx].item_id.is_none() {
            self.set_cell(idx, Some(item_id.to_owned()));
            self.dirty = true;
            true
        } else {
            false
        }
    }

    /// Removes and returns the item of cell `idx`.
    pub fn take(&mut self, idx: usize) -> (r: Option<String>)
        requires
            idx < old(self).cells@.len(),
        ensures
            opt_str_view(r) == old(self).ids()[idx as int],
            final(self).ids() == old(self).ids().update(idx as int, None),
            final(self).cells@.len() == old(self).cells@.len(),
            final(self).selected == old(self).selected,
            final(self).dirty == (old(self).dirty || r is Some),
    {
        let item = self.item_at(idx);
        self.set_cell(idx, None);
        if item.is_some() {
            self.dirty = true;
        }
        item
    }

    /// The first empty cell, if any.
    pub fn first_empty(&self) -> (r: Option<usize>)
        ensures
            r matches Some(i) ==> i == empty_from(self.ids(), 0),
            r is None ==> empty_from(self.ids(), 0) == -1,
    {
        let n = self.cells.len();
        let mut i: usize = 0;
        while i < n
            invariant
                n == self.cells@.len(),
                i <= n,
                empty_from(self.ids(), 0) == empty_from(self.ids(), i as int),
            decreases n - i,
        {
            if self.cells[i].item_id.is_none() {
                return Some(i);
            }
            i = i + 1;
        }
        None
    }

    /// The first empty cell among the eight neighbours of `idx`, scanning
    /// the rows above, level with and below `idx`, each from left to right.
    pub fn adjacent_empty(&self, idx: usize) -> (r: Option<usize>)
        requires
            self.wf(),
        ensures
            r matches Some(i) ==> i == adjacent_from(self.ids(), idx as int, 0),
            r is None ==> adjacent_from(self.ids(), idx as int, 0) == -1,
    {
        let col = idx % BOARD_COLS;
        let row = idx / BOARD_COLS;
        let mut k: usize = 0;
        while k < 9
            invariant
                self.wf(),
                col == idx % 7,
                row == idx / 7,
                k <= 9,
                adjacent_from(self.ids(), idx as int, 0) == adjacent_from(
                    self.ids(),
                    idx as int,
                    k as int,
                ),
            decreases 9 - k,
        {
            proof {
                lemma_neighbor_range(idx as int, k as int);
            }
            if k != 4 {
                let dr = k / 3;
                let dc = k % 3;
                // neighbour column is col + dc - 1, neighbour row is row + dr - 1
                if col + dc >= 1 && col + dc - 1 < BOARD_COLS && row + dr >= 1 && row + dr - 1
                    < BOARD_ROWS {
                    let ni = (row + dr - 1) * BOARD_COLS + (col + dc - 1);
                    assert(ni == neighbor(idx as int, k as int));
                    if self.cells[ni].item_id.is_none() {
                        return Some(ni);
                    }
                } else {
                    assert(neighbor(idx as int, k as int) == -1);
                }
            }
            k = k + 1;
        }
        None
    }

    /// Places `item_id` in the first empty neighbour of `source_idx`, or
    /// else in the first empty cell; returns whether it was placed.
    pub fn place_near(&mut self, source_idx: usize, item_id: &str) -> (r: bool)
        requires
            old(self).wf(),
        ensures
            final(self).wf(),
            final(self).selected == old(self).selected,
            r == (near_target(old(self).ids(), source_idx as int) >= 0),
            r ==> final(self).ids() == old(self).ids().update(
                near_target(old(self).ids(), source_idx as int),
                Some(item_id@),
            ),
            !r ==> final(self).ids() == old(self).ids(),
            final(self).dirty == (old(self).dirty || r),
    {
        proof {
            lemma_adjacent_from(self.ids(), source_idx as int, 0);
            lemma_empty_from(self.ids(), 0);
        }
        if let Some(ni) = self.adjacent_empty(source_idx) {
            self.place(ni, item_id)
        } else if let Some(fi) = self.first_empty() {
            self.place(fi, item_id)
        } else {
            false
        }
    }

    /// The id two pieces `sel_id` merge into, for mergeable pieces.
    fn merge_result_of(db: &ItemDatabase, sel_id: &String, click_id: &String) -> (r: String)
        requires
            db.spec_can_merge(sel_id@, click_id@),
        ensures
            r@ == db.spec_merge_result(sel_id@),
    {
        let def = db.get(sel_id.as_str()).unwrap();
        def.merge_result_id.as_ref().unwrap().clone()
    }

    /// Handles a click on cell `clicked_idx` and returns the action taken.
    pub fn handle_click(&mut self, clicked_idx: usize, db: &ItemDatabase) -> (r: ClickAction)
        requires
            old(self).wf(),
            clicked_idx < BOARD_SIZE,
        ensures
            final(self).wf(),
            click_post(*db, *old(self), *final(self), clicked_idx as int, r),
    {
        let clicked_item = self.item_at(clicked_idx);
        match self.selected {
            None => {
                if clicked_item.is_some() {
                    self.selected = Some(clicked_idx);
                    ClickAction::Selected(clicked_idx)
                } else {
                    ClickAction::Nothing
                }
            },
            Some(selected_idx) => {
                if selected_idx == clicked_idx {
                    // Clicked on the already-selected cell
                    let item_id: &str = match &clicked_item {
                        Some(s) => s.as_str(),
                        None => "",
                    };
                    proof {
                        reveal_strlit("");
                    }
                    assert(item_id@ == id_or_empty(opt_str_view(clicked_item)));
                    if let Some(item_def) = db.get(item_id) {
                        if item_def.is_generator {
                            // Generator action, carried out by the caller
                            self.selected = None;
                            return ClickAction::GeneratorActivated(clicked_idx, item_id.to_owned());
                        }
                    }
                    self.selected = None;
                    ClickAction::Deselected
                } else {
                    let selected_item = self.item_at(selected_idx);
                    if let (Some(sel_id), Some(click_id)) = (&selected_item, &clicked_item) {
                        if db.can_merge(sel_id.as_str(), click_id.as_str()) {
                            let result_id = Self::merge_result_of(db, sel_id, click_id);
                            let result_copy = result_id.clone();
                            // Both pieces leave; the merged piece lands on the clicked cell
                            self.set_cell(selected_idx, None);
                            self.set_cell(clicked_idx, Some(result_copy));
                            self.selected = None;
                            self.dirty = true;
                            return ClickAction::Merged {
                                source: selected_idx,
                                target: clicked_idx,
                                result: result_id,
                            };
                        }
                    }
                    // Move the selected piece to the empty clicked cell
                    if clicked_item.is_none() {
                        if let Some(sel_id) = selected_item {
                            let moved = sel_id.clone();
                            self.set_cell(selected_idx, None);
                            self.set_cell(clicked_idx, Some(moved));
                            self.selected = None;
                            self.dirty = true;
                            return ClickAction::Moved {
                                from: selected_idx,
                                to: clicked_idx,
                                item: sel_id,
                            };
                        }
                    }
                    // Select the clicked piece instead
                    if clicked_item.is_some() {
                        self.selected = Some(clicked_idx);
                        return ClickAction::Selected(clicked_idx);
                    }
                    self.selected = None;
                    ClickAction::Nothing
                }
            },
        }
    }

    /// Handles dropping the piece dragged from cell `from` onto cell `to`
    /// and returns the action taken.
    pub fn handle_drag(&mut self, from: usize, to: usize, db: &ItemDatabase) -> (r: ClickAction)
        requires
            old(self).wf(),
            from < BOARD_SIZE,
            to < BOARD_SIZE,
        ensures
            final(self).wf(),
            drag_post(*db, *old(self), *final(self), from as int, to as int, r),
    {
        let from_item = self.item_at(from);
        let to_item = self.item_at(to);
        if let (Some(from_id), Some(to_id)) = (&from_item, &to_item) {
            if db.can_merge(from_id.as_str(), to_id.as_str()) {
                let result_id = Self::merge_result_of(db, from_id, to_id);
                let result_copy = result_id.clone();
                self.set_cell(from, None);
                self.set_cell(to, Some(result_copy));
                self.selected = None;
                self.dirty = true;
                return ClickAction::Merged { source: from, target: to, result: result_id };
            }
            // Pieces that do not merge trade places
            let a = from_id.clone();
            let b = to_id.clone();
            self.set_cell(from, Some(b));
            self.set_cell(to, Some(a));
            self.selected = None;
            self.dirty = true;
            return ClickAction::Swapped { from, to };
        }
        if to_item.is_none() {
            if let Some(from_id) = from_item {
                let moved = from_id.clone();
                self.set_cell(from, None);
                self.set_cell(to, Some(moved));
                self.selected = None;
                self.dirty = true;
                return ClickAction::Moved { from, to, item: from_id };
            }
        }
        ClickAction::Nothing
    }
}

/// Whether the pieces in cells `i` and `j` merge with each other.
pub open spec fn mergeable(db: ItemDatabase, ids: Seq<Option<Seq<char>>>, i: int, j: int) -> bool {
    &&& ids[i] is Some
    &&& ids[j] is Some
    &&& db.spec_can_merge(ids[i]->Some_0, ids[j]->Some_0)
}

/// Cell pair `(a, b)` comes before position `(i, j)` in row-major pair order.
pub open spec fn pair_before(a: int, b: int, i: int, j: int) -> bool {
    a < i || (a == i && b < j)
}

/// What `mergeable_pairs` returns: exactly the pairs `i < j` of cells whose
/// pieces merge, each once, in increasing order (by first cell, then by
/// second cell).
pub open spec fn pairs_post(db: ItemDatabase, ids: Seq<Option<Seq<char>>>, r: Seq<(usize, usize)>) -> bool {
    &&& forall|k: int|
        0 <= k < r.len() ==> (#[trigger] r[k]).0 < r[k].1 < BOARD_SIZE && mergeable(
            db,
            ids,
            r[k].0 as int,
            r[k].1 as int,
        )
    &&& forall|a: int, b: int|
        0 <= a < b < BOARD_SIZE && #[trigger] mergeable(db, ids, a, b) ==> r.contains(
            (a as usize, b as usize),
        )
    &&& forall|k: int, l: int|
        0 <= k < l < r.len() ==> pair_before(
            (#[trigger] r[k]).0 as int,
            r[k].1 as int,
            (#[trigger] r[l]).0 as int,
            r[l].1 as int,
        )
}

/// The pairs of cells whose pieces could be merged with each other (the
/// hint shown while the player is idle), in increasing order.
pub fn mergeable_pairs(board: &Board, db: &ItemDatabase) -> (r: Vec<(usize, usize)>)
    requires
        board.wf(),
    ensures
        pairs_post(*db, board.ids(), r@),
{
    let ghost ids = board.ids();
    let mut r: Vec<(usize, usize)> = Vec::new();
    let mut i: usize = 0;
    while i < BOARD_SIZE
        invariant
            board.wf(),
            ids == board.ids(),
            i <= BOARD_SIZE,
            forall|k: int|
                0 <= k < r@.len() ==> (#[trigger] r@[k]).0 < r@[k].1 < BOARD_SIZE && (r@[k].0 as int)
                    < i && mergeable(*db, ids, r@[k].0 as int, r@[k].1 as int),
            forall|a: int, b: int|
                0 <= a < b < BOARD_SIZE && a < i && #[trigger] mergeable(*db, ids, a, b)
                    ==> r@.contains((a as usize, b as usize)),
            forall|k: int, l: int|
                0 <= k < l < r@.len() ==> pair_before(
                    (#[trigger] r@[k]).0 as int,
                    r@[k].1 as int,
                    (#[trigger] r@[l]).0 as int,
                    r@[l].1 as int,
                ),
        decreases BOARD_SIZE - i,
    {
        let mut j: usize = i + 1;
        while j < BOARD_SIZE
            invariant
                board.wf(),
                ids == board.ids(),
                i < BOARD_SIZE,
                i < j <= BOARD_SIZE,
                forall|k: int|
                    0 <= k < r@.len() ==> (#[trigger] r@[k]).0 < r@[k].1 < BOARD_SIZE
                        && pair_before(r@[k].0 as int, r@[k].1 as int, i as int, j as int)
                        && mergeable(*db, ids, r@[k].0 as int, r@[k].1 as int),
                forall|a: int, b: int|
                    0 <= a < b < BOARD_SIZE && pair_before(a, b, i as int, j as int)
                        && #[trigger] mergeable(*db, ids, a, b) ==> r@.contains(
                        (a as usize, b as usize),
                    ),
                forall|k: int, l: int|
                    0 <= k < l < r@.len() ==> pair_before(
                        (#[trigger] r@[k]).0 as int,
                        r@[k].1 as int,
                        (#[trigger] r@[l]).0 as int,
                        r@[l].1 as int,
                    ),
            decreases BOARD_SIZE - j,
        {
            let m = match (&board.cells[i].item_id, &board.cells[j].item_id) {
                (Some(x), Some(y)) => db.can_merge(x.as_str(), y.as_str()),
                _ => false,
            };
            assert(m == mergeable(*db, ids, i as int, j as int));
            let ghost before = r@;
            if m {
                r.push((i, j));
                assert(r@[r@.len() - 1] == (i, j));
                assert forall|a: int, b: int|
                    0 <= a < b < BOARD_SIZE && pair_before(a, b, i as int, j as int + 1)
                        && #[trigger] mergeable(*db, ids, a, b) implies r@.contains(
                        (a as usize, b as usize),
                    ) by {
                    if a == i && b == j {
                        assert(r@[r@.len() - 1] == (a as usize, b as usize));
                    } else {
                        assert(before.contains((a as usize, b as usize)));
                        let k = choose|k: int| 0 <= k < before.len() && before[k] == (a as usize, b as usize);
                        assert(r@[k] == before[k]);
                    }
                }
            }
            j = j + 1;
        }
        i = i + 1;
    }
    r
}

} // verus!
