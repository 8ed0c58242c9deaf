//! Item definitions and the item database with its merge rule.
use vstd::prelude::*;

use crate::random::random_below;
use crate::text::str_eq;

verus! {

/// The production family an item belongs to.
#[derive(Clone, Copy, Debug, PartialEq, Eq, Structural)]
pub enum ChainType {
    Poultry,
    Egg,
    Teapot,
    CoolTea,
    RiceBall,
    Basket,
    Dough,
    Watermelon,
    CraftBox,
    Lantern,
    Dresser,
    Ring,
    PeaceLock,
    Loom,
    Fabric,
    Pouch,
    RedBox,
    GreenBox,
    Gold,
    Gourd,
    Ruby,
}

/// One weighted entry of a generator's output table.
#[derive(Debug)]
pub struct GenerationOption {
    /// Id of the item that can be produced.
    pub item_id: String,
    /// Relative weight of this entry.
    pub weight: u32,
}

/// Static definition of one item (one level of one chain).
#[derive(Debug)]
pub struct ItemDef {
    pub id: String,
    pub chain: ChainType,
    pub level: u32,
    pub name: String,
    pub icon_path: Option<String>,
    /// Clicking the selected piece produces children.
    pub is_generator: bool,
    /// The piece produces children on its own, over time.
    pub is_auto_generator: bool,
    /// Weighted output table of a generator.
    pub generates: Vec<GenerationOption>,
    /// Fixed output of a generator (used by auto-generators and as fallback).
    pub generates_id: Option<String>,
    /// Interval between two automatic productions, in milliseconds.
    pub auto_gen_interval_ms: u64,
    /// Id of the item two copies of this item merge into; `None` at the top level.
    pub merge_result_id: Option<String>,
    /// Red, green and blue background components as written in the table.
    pub bg_color: (String, String, String),
    /// How many children one activation tries to produce.
    pub generates_count: u32,
    /// The generator disappears after producing.
    pub consumes_on_generate: bool,
    pub max_generate_count: u32,
}

/// View of an optional string as an optional character sequence.
pub open spec fn opt_str_view(o: Option<String>) -> Option<Seq<char>> {
    match o {
        Some(s) => Some(s@),
        None => None,
    }
}

/// Index of the first definition at or after `i` whose id is `id`, or -1.
pub open spec fn find_from(items: Seq<ItemDef>, id: Seq<char>, i: int) -> int
    decreases items.len() - i,
{
    if i < 0 || i >= items.len() {
        -1
    } else if items[i].id@ == id {
        i
    } else {
        find_from(items, id, i + 1)
    }
}

/// Looks an id up in a sequence of definitions; the first match wins.
pub open spec fn lookup(items: Seq<ItemDef>, id: Seq<char>) -> Option<ItemDef> {
    let k = find_from(items, id, 0);
    if k >= 0 {
        Some(items[k])
    } else {
        None
    }
}

pub proof fn lemma_find_from_range(items: Seq<ItemDef>, id: Seq<char>, i: int)
    ensures
        find_from(items, id, i) == -1 || (i <= find_from(items, id, i) < items.len()
            && items[find_from(items, id, i)].id@ == id),
        find_from(items, id, i) == -1 ==> forall|j: int|
            #![trigger items[j]]
            0 <= i <= j < items.len() ==> items[j].id@ != id,
        forall|j: int|
            #![trigger items[j]]
            0 <= i <= j < find_from(items, id, i) ==> items[j].id@ != id,
    decreases items.len() - i,
{
    if i < 0 || i >= items.len() {
    } else if items[i].id@ == id {
    } else {
        lemma_find_from_range(items, id, i + 1);
    }
}

proof fn lemma_find_at(items: Seq<ItemDef>, id: Seq<char>, i: int, k: int)
    requires
        0 <= i <= k < items.len(),
        items[k].id@ == id,
        forall|j: int| i <= j < k ==> #[trigger] items[j].id@ != id,
    ensures
        find_from(items, id, i) == k,
    decreases k - i,
{
    if i < k {
        lemma_find_at(items, id, i + 1, k);
    }
}

proof fn lemma_find_none(items: Seq<ItemDef>, id: Seq<char>, i: int)
    requires
        0 <= i,
        forall|j: int| i <= j < items.len() ==> #[trigger] items[j].id@ != id,
    ensures
        find_from(items, id, i) == -1,
    decreases items.len() - i,
{
    if i < items.len() {
        lemma_find_none(items, id, i + 1);
    }
}

/// Two tables whose ids agree position by position, except at positions
/// whose ids differ from `id` in both, answer a lookup of `id` alike.
proof fn lemma_find_same(a: Seq<ItemDef>, b: Seq<ItemDef>, id: Seq<char>)
    requires
        a.len() <= b.len(),
        forall|j: int| 0 <= j < a.len() ==> (#[trigger] a[j].id@ == id <==> b[j].id@ == id),
        forall|j: int| a.len() <= j < b.len() ==> #[trigger] b[j].id@ != id,
    ensures
        find_from(a, id, 0) == find_from(b, id, 0),
{
    lemma_find_from_range(a, id, 0);
    let r = find_from(a, id, 0);
    if r >= 0 {
        assert forall|j: int| 0 <= j < r implies #[trigger] b[j].id@ != id by {
            assert(a[j].id@ != id);
        }
        lemma_find_at(b, id, 0, r);
    } else {
        assert forall|j: int| 0 <= j < b.len() implies #[trigger] b[j].id@ != id by {
            if j < a.len() {
                assert(a[j].id@ != id);
            }
        }
        lemma_find_none(b, id, 0);
    }
}

/// Registering a definition makes it the answer for its id and leaves every
/// other id's answer unchanged.
pub proof fn lemma_insert_lookup(items: Seq<ItemDef>, def: ItemDef, id: Seq<char>)
    ensures
        lookup(insert_def(items, def), id) == (if id == def.id@ {
            Some(def)
        } else {
            lookup(items, id)
        }),
{
    let k = find_from(items, def.id@, 0);
    lemma_find_from_range(items, def.id@, 0);
    let t = insert_def(items, def);
    if k >= 0 {
        if id == def.id@ {
            assert forall|j: int| 0 <= j < k implies #[trigger] t[j].id@ != id by {
                assert(items[j].id@ != id);
            }
            lemma_find_at(t, id, 0, k);
        } else {
            lemma_find_same(items, t, id);
            lemma_find_from_range(items, id, 0);
            let r = find_from(items, id, 0);
            if r >= 0 {
                assert(r != k);
                assert(t[r] == items[r]);
            }
        }
    } else {
        if id == def.id@ {
            assert forall|j: int| 0 <= j < items.len() implies #[trigger] t[j].id@ != id by {
                assert(items[j].id@ != id);
            }
            lemma_find_at(t, id, 0, items.len() as int);
        } else {
            lemma_find_same(items, t, id);
            lemma_find_from_range(items, id, 0);
            let r = find_from(items, id, 0);
            if r >= 0 {
                assert(t[r] == items[r]);
            }
        }
    }
}


/// Sum of the weights of `opts`.
pub open spec fn total_weight(opts: Seq<GenerationOption>) -> int
    decreases opts.len(),
{
    if opts.len() == 0 {
        0
    } else {
        total_weight(opts.drop_last()) + opts.last().weight
    }
}

/// Index of the option a roll in `0..total_weight(opts)` selects: the
/// first option whose running weight total exceeds the roll.
pub open spec fn weighted_index(opts: Seq<GenerationOption>, roll: int) -> int
    decreases opts.len(),
{
    if opts.len() == 0 {
        -1
    } else if roll < total_weight(opts.drop_last()) {
        weighted_index(opts.drop_last(), roll)
    } else if roll < total_weight(opts) {
        opts.len() - 1
    } else {
        -1
    }
}

pub proof fn lemma_total_weight_prefix(opts: Seq<GenerationOption>, k: int)
    requires
        0 <= k <= opts.len(),
    ensures
        0 <= total_weight(opts.take(k)) <= total_weight(opts),
    decreases opts.len(),
{
    if k == opts.len() {
        assert(opts.take(k) =~= opts);
        lemma_total_weight_nonneg(opts);
    } else {
        lemma_total_weight_prefix(opts.drop_last(), k);
        assert(opts.drop_last().take(k) =~= opts.take(k));
    }
}

pub proof fn lemma_total_weight_nonneg(opts: Seq<GenerationOption>)
    ensures
        total_weight(opts) >= 0,
    decreases opts.len(),
{
    if opts.len() > 0 {
        lemma_total_weight_nonneg(opts.drop_last());
    }
}

/// A roll below the total weight selects an option of the table.
pub proof fn lemma_weighted_index_range(opts: Seq<GenerationOption>, roll: int)
    requires
        0 <= roll < total_weight(opts),
    ensures
        0 <= weighted_index(opts, roll) < opts.len(),
        opts[weighted_index(opts, roll)].weight > 0,
    decreases opts.len(),
{
    if opts.len() > 0 && roll < total_weight(opts.drop_last()) {
        lemma_weighted_index_range(opts.drop_last(), roll);
    }
}

impl ItemDef {
    /// Sum of the weights of this generator's output table.
    pub fn total_weight(&self) -> (t: u64)
        requires
            total_weight(self.generates@) <= u64::MAX,
        ensures
            t == total_weight(self.generates@),
    {
        let mut t: u64 = 0;
        let mut i: usize = 0;
        while i < self.generates.len()
            invariant
                i <= self.generates@.len(),
                total_weight(self.generates@) <= u64::MAX,
                t == total_weight(self.generates@.take(i as int)),
            decreases self.generates@.len() - i,
        {
            assert(self.generates@.take(i + 1).drop_last() =~= self.generates@.take(i as int));
            proof {
                lemma_total_weight_prefix(self.generates@, i + 1);
            }
            t = t + self.generates[i].weight as u64;
            i = i + 1;
        }
        assert(self.generates@.take(i as int) =~= self.generates@);
        t
    }

    /// The output selected by `roll` (a number below the total weight): the
    /// first option whose running weight total exceeds the roll.
    pub fn pick_with_roll(&self, roll: u64) -> (r: &String)
        requires
            roll < total_weight(self.generates@),
            total_weight(self.generates@) <= u64::MAX,
        ensures
            *r == self.generates@[weighted_index(self.generates@, roll as int)].item_id,
    {
        let ghost opts = self.generates@;
        let mut acc: u64 = 0;
        let mut i: usize = 0;
        proof {
            lemma_weighted_index_range(opts, roll as int);
        }
        while i < self.generates.len()
            invariant
                opts == self.generates@,
                i <= opts.len(),
                roll < total_weight(opts),
                total_weight(opts) <= u64::MAX,
                acc == total_weight(opts.take(i as int)),
                acc <= roll,
                weighted_index(opts, roll as int) >= i,
            decreases opts.len() - i,
        {
            assert(opts.take(i + 1).drop_last() =~= opts.take(i as int));
            proof {
                lemma_total_weight_prefix(opts, i + 1);
                lemma_weighted_index_prefix(opts, roll as int, i as int + 1);
            }
            let w = self.generates[i].weight as u64;
            assert(acc + w == total_weight(opts.take(i + 1)));
            if roll < acc + w {
                return &self.generates[i].item_id;
            }
            acc = acc + w;
            i = i + 1;
        }
        assert(opts.take(i as int) =~= opts);
        &self.generates[0].item_id
    }

    /// The item a generator produces: a weighted random pick from its output
    /// table, or its fixed output when the table carries no weight.
    pub fn pick_generated_item(&self) -> (r: Option<String>)
        requires
            total_weight(self.generates@) <= u64::MAX,
        ensures
            total_weight(self.generates@) == 0 ==> opt_str_view(r) == opt_str_view(
                self.generates_id,
            ),
            total_weight(self.generates@) > 0 ==> exists|k: int|
                0 <= k < self.generates@.len() && self.generates@[k].weight > 0 && r == Some(
                    #[trigger] self.generates@[k].item_id,
                ),
            total_weight(self.generates@) > 0 ==> exists|roll: int|
                0 <= roll < total_weight(self.generates@) && r == Some(
                    self.generates@[#[trigger] weighted_index(self.generates@, roll)].item_id,
                ),
    {
        let total = self.total_weight();
        if total == 0 {
            match &self.generates_id {
                Some(g) => Some(g.clone()),
                None => None,
            }
        } else {
            let roll = random_below(total);
            proof {
                lemma_weighted_index_range(self.generates@, roll as int);
            }
            Some(self.pick_with_roll(roll).clone())
        }
    }
}

/// Each option of a weighted table is selected by exactly the rolls of
/// its own stretch of the running total: the rolls from the weight of the
/// options before it up to that plus its own weight.  So among the rolls
/// `0..total_weight(opts)` an option of weight `w` is selected by exactly
/// `w` of them.
pub proof fn law_weighted_shares(opts: Seq<GenerationOption>, i: int, roll: int)
    requires
        0 <= i < opts.len(),
        0 <= roll < total_weight(opts),
    ensures
        total_weight(opts.take(i + 1)) == total_weight(opts.take(i)) + opts[i].weight,
        weighted_index(opts, roll) == i <==> total_weight(opts.take(i)) <= roll < total_weight(
            opts.take(i),
        ) + opts[i].weight,
{
    assert(opts.take(i + 1).drop_last() =~= opts.take(i));
    assert(opts.take(i + 1).last() == opts[i]);
    lemma_weighted_index_prefix(opts, roll, i);
    lemma_weighted_index_prefix(opts, roll, i + 1);
}

/// The option a roll selects lies beyond every prefix whose total weight
/// does not exceed the roll.
proof fn lemma_weighted_index_prefix(opts: Seq<GenerationOption>, roll: int, k: int)
    requires
        0 <= k <= opts.len(),
        0 <= roll < total_weight(opts),
    ensures
        roll < total_weight(opts.take(k)) ==> weighted_index(opts, roll) < k,
        roll >= total_weight(opts.take(k)) ==> weighted_index(opts, roll) >= k,
        roll < total_weight(opts.take(k)) && roll >= total_weight(opts.take(k - 1)) && k >= 1
            ==> weighted_index(opts, roll) == k - 1,
    decreases opts.len(),
{
    lemma_weighted_index_range(opts, roll);
    if k == opts.len() {
        assert(opts.take(k) =~= opts);
        if k >= 1 {
            assert(opts.take(k - 1) =~= opts.drop_last());
        }
    } else {
        let d = opts.drop_last();
        assert(d.take(k) =~= opts.take(k));
        if k >= 1 {
            assert(d.take(k - 1) =~= opts.take(k - 1));
        }
        lemma_total_weight_prefix(opts, k);
        lemma_total_weight_prefix(d, k);
        if roll < total_weight(d) {
            lemma_weighted_index_prefix(d, roll, k);
        } else {
            // the roll selects the last option, beyond every proper prefix
            lemma_total_weight_prefix(d, k);
        }
    }
}

/// `items` with `def` registered: the first definition with the same id is
/// replaced, or `def` is appended when the id is new.
pub open spec fn insert_def(items: Seq<ItemDef>, def: ItemDef) -> Seq<ItemDef> {
    let k = find_from(items, def.id@, 0);
    if k >= 0 {
        items.update(k, def)
    } else {
        items.push(def)
    }
}

/// The table built by registering the definitions of `defs` in order.
pub open spec fn db_of(defs: Seq<ItemDef>) -> Seq<ItemDef>
    decreases defs.len(),
{
    if defs.len() == 0 {
        Seq::empty()
    } else {
        insert_def(db_of(defs.drop_last()), defs.last())
    }
}

/// Position of the last definition of `id` among the first `n` of `defs`,
/// or -1.
pub open spec fn last_def_index(defs: Seq<ItemDef>, id: Seq<char>, n: int) -> int
    decreases n,
{
    if n <= 0 {
        -1
    } else if defs[n - 1].id@ == id {
        n - 1
    } else {
        last_def_index(defs, id, n - 1)
    }
}

/// In a database built from a list of definitions, an id answers with the
/// last definition of that id in the list, and an id the list never
/// defines has no answer.
pub proof fn law_last_definition_wins(defs: Seq<ItemDef>, id: Seq<char>)
    ensures
        lookup(db_of(defs), id) == (if last_def_index(defs, id, defs.len() as int) >= 0 {
            Some(defs[last_def_index(defs, id, defs.len() as int)])
        } else {
            None
        }),
    decreases defs.len(),
{
    if defs.len() == 0 {
        assert(find_from(db_of(defs), id, 0) == -1);
    } else {
        let prev = defs.drop_last();
        law_last_definition_wins(prev, id);
        lemma_insert_lookup(db_of(prev), defs.last(), id);
        if defs.last().id@ != id {
            lemma_last_def_index_take(defs, id, defs.len() - 1, defs.len() - 1);
            assert(defs.take(defs.len() - 1) =~= prev);
            let li = last_def_index(defs, id, defs.len() as int);
            if li >= 0 {
                assert(prev[li] == defs[li]);
            }
        }
    }
}

/// The last definition among the first `n` does not depend on what follows.
proof fn lemma_last_def_index_take(defs: Seq<ItemDef>, id: Seq<char>, n: int, m: int)
    requires
        0 <= n <= m <= defs.len(),
    ensures
        last_def_index(defs, id, n) == last_def_index(defs.take(m), id, n),
        last_def_index(defs, id, n) == -1 || 0 <= last_def_index(defs, id, n) < n,
    decreases n,
{
    if n > 0 {
        assert(defs.take(m)[n - 1] == defs[n - 1]);
        lemma_last_def_index_take(defs, id, n - 1, m);
    }
}

/// Lookup table of all item definitions.
#[derive(Debug)]
pub struct ItemDatabase {
    pub items: Vec<ItemDef>,
}

impl ItemDatabase {
    /// The definition registered under `id`, if any.
    pub open spec fn spec_get(&self, id: Seq<char>) -> Option<ItemDef> {
        lookup(self.items@, id)
    }

    /// Whether two pieces with ids `a` and `b` merge: the ids are equal,
    /// the item is known and it is not at the top level of its chain.
    pub open spec fn spec_can_merge(&self, a: Seq<char>, b: Seq<char>) -> bool {
        &&& a == b
        &&& self.spec_get(a) is Some
        &&& self.spec_get(a)->Some_0.merge_result_id is Some
    }

    /// The id two pieces `a` merge into.
    pub open spec fn spec_merge_result(&self, a: Seq<char>) -> Seq<char> {
        self.spec_get(a)->Some_0.merge_result_id->Some_0@
    }

    /// A database holding `items`; when an id occurs more than once the
    /// later definition replaces the earlier one.
    pub fn from_items(items: Vec<ItemDef>) -> (db: Self)
        ensures
            db.items@ == db_of(items@),
    {
        let mut db = ItemDatabase { items: Vec::new() };
        let mut rest = items;
        let ghost all = items@;
        let ghost mut k: int = 0;
        assert(all.take(0) =~= Seq::<ItemDef>::empty());
        while rest.len() > 0
            invariant
                0 <= k <= all.len(),
                rest@ == all.skip(k),
                db.items@ == db_of(all.take(k)),
            decreases rest.len(),
        {
            let d = rest.remove(0);
            proof {
                assert(all.take(k + 1).drop_last() =~= all.take(k));
                assert(all.take(k + 1).last() == d);
                k = k + 1;
                assert(rest@ =~= all.skip(k));
            }
            db.insert(d);
        }
        assert(all.take(k) =~= all);
        db
    }

    /// The database of the items described by the item table and the
    /// generator table (see `load_items`).
    pub fn new(items_csv: &str, generates_csv: &str) -> (db: Self)
        requires
            crate::config::chains_known(items_csv@),
        ensures
            exists|defs: Seq<ItemDef>|
                #![trigger db_of(defs)]
                {
                    &&& db.items@ == db_of(defs)
                    &&& defs.len() == crate::config::item_lines(items_csv@).len()
                    &&& forall|k: int|
                        0 <= k < defs.len() ==> crate::config::item_from(
                            #[trigger] defs[k],
                            crate::config::item_lines(items_csv@)[k],
                            crate::config::generates_of(
                                crate::config::item_lines(items_csv@),
                                k,
                                crate::config::gen_rows(generates_csv@),
                            ),
                        )
                },
    {
        let defs = crate::config::load_items(items_csv, generates_csv);
        let db = Self::from_items(defs);
        assert(db.items@ == db_of(defs@));
        db
    }

    /// Registers `def`, replacing the definition with the same id if there is one.
    pub fn insert(&mut self, def: ItemDef)
        ensures
            final(self).items@ == insert_def(old(self).items@, def),
    {
        let n = self.items.len();
        let mut i: usize = 0;
        while i < n
            invariant
                n == self.items@.len(),
                self.items@ == old(self).items@,
                i <= n,
                find_from(self.items@, def.id@, 0) == find_from(self.items@, def.id@, i as int),
            decreases n - i,
        {
            if str_eq(self.items[i].id.as_str(), def.id.as_str()) {
                self.items.set(i, def);
                return;
            }
            i = i + 1;
        }
        self.items.push(def);
    }

    /// The definition registered under `id`, if any.
    pub fn get(&self, id: &str) -> (r: Option<&ItemDef>)
        ensures
            r is Some == self.spec_get(id@) is Some,
            r matches Some(d) ==> *d == self.spec_get(id@)->Some_0,
    {
        let n = self.items.len();
        let mut i: usize = 0;
        while i < n
            invariant
                n == self.items@.len(),
                i <= n,
                find_from(self.items@, id@, 0) == find_from(self.items@, id@, i as int),
            decreases n - i,
        {
            if str_eq(self.items[i].id.as_str(), id) {
                return Some(&self.items[i]);
            }
            i = i + 1;
        }
        None
    }

    /// Every output table's total weight fits in 64 bits.
    pub open spec fn spec_weights_fit(&self) -> bool {
        forall|i: int|
            0 <= i < self.items@.len() ==> total_weight(#[trigger] self.items@[i].generates@)
                <= u64::MAX
    }

    /// Whether every output table's total weight fits in 64 bits.
    pub fn weights_fit(&self) -> (r: bool)
        ensures
            r == self.spec_weights_fit(),
    {
        let mut i: usize = 0;
        while i < self.items.len()
            invariant
                i <= self.items@.len(),
                forall|j: int|
                    0 <= j < i ==> total_weight(#[trigger] self.items@[j].generates@) <= u64::MAX,
            decreases self.items@.len() - i,
        {
            let opts = &self.items[i].generates;
            let mut t: u64 = 0;
            let mut k: usize = 0;
            while k < opts.len()
                invariant
                    i < self.items@.len(),
                    opts == &self.items@[i as int].generates,
                    k <= opts@.len(),
                    t == total_weight(opts@.take(k as int)),
                decreases opts@.len() - k,
            {
                assert(opts@.take(k + 1).drop_last() =~= opts@.take(k as int));
                let w = opts[k].weight as u64;
                if t > u64::MAX - w {
                    proof {
                        lemma_total_weight_prefix(opts@, k + 1);
                    }
                    return false;
                }
                t = t + w;
                k = k + 1;
            }
            assert(opts@.take(k as int) =~= opts@);
            i = i + 1;
        }
        true
    }

    /// The definition the database answers for the piece `id`, when known.
    pub proof fn lemma_get_in_table(&self, id: Seq<char>)
        ensures
            self.spec_get(id) is Some ==> exists|i: int|
                0 <= i < self.items@.len() && self.items@[i] == self.spec_get(id)->Some_0,
    {
        lemma_find_from_range(self.items@, id, 0);
    }

    /// Whether two pieces merge into the next level.
    pub fn can_merge(&self, id_a: &str, id_b: &str) -> (r: bool)
        ensures
            r == self.spec_can_merge(id_a@, id_b@),
    {
        if !str_eq(id_a, id_b) {
            return false;
        }
        match self.get(id_a) {
            Some(item) => item.merge_result_id.is_some(),
            None => false,
        }
    }
}

} // verus!
