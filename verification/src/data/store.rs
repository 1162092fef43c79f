//! The store of all tables: the rows of the concrete tables, the entries of
//! the abstract tables, and for each table the index from ids to places.
//!
//! The tables are loaded level by level. The rows of a concrete table are
//! loaded from its sheet and then entered, one by one, into the arena of
//! every table above it. When all tables are loaded, the links of all rows
//! are resolved.

use crate::data::arena::{loaded_rows, row_ids, Arena};
use crate::data::cell::{sheet_view, Cell, CellView};
use crate::data::error::{Error, ErrorView};
use crate::data::link::{indexes_view, resolve_row, resolved_row, reversed};
use crate::data::plan::TablePlan;
use crate::data::value::{rows_view, Row, RowView};
use crate::data::written::entry_text;
use crate::data::DataId;
use crate::levels::graph_of;
use std::collections::HashMap;
use vstd::prelude::*;

verus! {

broadcast use vstd::std_specs::hash::group_hash_axioms;

/// An entry of an abstract table: a row of a table that extends it.
#[derive(Debug, Clone, Copy, PartialEq, Eq, Structural)]
pub struct AbstractRow {
    /// The id of the row.
    pub id: DataId,
    /// The table that the row comes from: one that extends the abstract
    /// table directly.
    pub variant: usize,
    /// The place of the row, or of its entry, in the arena of that table.
    pub slot: usize,
}

/// The rows and entries of all tables, by the index of the table.
#[derive(Debug, PartialEq, Eq)]
pub struct DataStore {
    /// The rows of each concrete table; none for an abstract table.
    pub rows: Vec<Vec<Row>>,
    /// The entries of each abstract table; none for a concrete table.
    pub entries: Vec<Vec<AbstractRow>>,
    /// For each table, the place of the row or entry of each id.
    pub indexes: Vec<HashMap<u32, usize>>,
}

/// The mathematical content of a `DataStore`.
pub struct StoreView {
    pub rows: Seq<Seq<RowView>>,
    pub entries: Seq<Seq<AbstractRow>>,
}

/// The ids of entries, in order.
pub open spec fn entry_ids(entries: Seq<AbstractRow>) -> Seq<u32> {
    entries.map_values(|e: AbstractRow| e.id.0)
}

/// `index` gives for each of `ids` its position, and holds nothing else: no
/// id occurs twice.
pub open spec fn index_matches(index: Map<u32, usize>, ids: Seq<u32>) -> bool {
    &&& forall|id: u32| #[trigger]
        index.contains_key(id) ==> index[id] < ids.len() && ids[index[id] as int] == id
    &&& forall|k: int|
        0 <= k < ids.len() ==> index.contains_key(#[trigger] ids[k]) && index[ids[k]] == k
}

/// Going from table `t` to the table it extends, and on from there, ends
/// within `fuel` steps at a table that extends nothing.
pub open spec fn chain_ends(plans: Seq<TablePlan>, t: usize, fuel: nat) -> bool
    decreases fuel,
{
    match plans[t as int].parent {
        None => true,
        Some(p) => fuel > 0 && p < plans.len() && chain_ends(plans, p, (fuel - 1) as nat),
    }
}

/// A table extends an abstract table of the plans, if it extends one, and
/// no table extends itself, directly or through others.
pub open spec fn hierarchy_wf(plans: Seq<TablePlan>) -> bool {
    forall|t: int|
        0 <= t < plans.len() ==> ((#[trigger] plans[t]).parent matches Some(p) ==> p < plans.len()
            && !plans[p as int].concrete) && chain_ends(plans, t as usize, plans.len())
}

/// Every arena holds in `after`, at the same places, what it held in
/// `before`.
pub open spec fn keeps(before: Seq<Seq<AbstractRow>>, after: Seq<Seq<AbstractRow>>) -> bool {
    &&& after.len() == before.len()
    &&& forall|t: int|
        0 <= t < before.len() ==> before[t].len() <= (#[trigger] after[t]).len()
    &&& forall|t: int, k: int|
        0 <= t < before.len() && 0 <= k < before[t].len() ==> #[trigger] after[t][k]
            == before[t][k]
}

/// No table is named twice by the levels.
pub open spec fn levels_name_once(levels: Seq<Seq<usize>>) -> bool {
    forall|l: int, k: int, m: int, j: int|
        0 <= l < levels.len() && 0 <= k < levels[l].len() && 0 <= m < levels.len() && 0 <= j
            < levels[m].len() && #[trigger] levels[l][k] == #[trigger] levels[m][j] ==> l == m
            && k == j
}

/// Every plan reads its fields from columns that a row has.
pub open spec fn plans_wf(plans: Seq<TablePlan>) -> bool {
    forall|t: int| 0 <= t < plans.len() ==> (#[trigger] plans[t]).wf()
}

/// The entries after a row of table `child`, at `slot`, is entered into the
/// arenas of the tables above `child`: each gets an entry that names the
/// table below it on the way and the place of the row or entry there. Fails
/// at the first arena that holds the id already. The way up is gone for
/// `fuel` steps at most: as many as there are plans reach the top of every
/// hierarchy whose chains end.
pub open spec fn registered(
    plans: Seq<TablePlan>,
    entries: Seq<Seq<AbstractRow>>,
    child: usize,
    id: u32,
    slot: usize,
    fuel: nat,
) -> Result<Seq<Seq<AbstractRow>>, ErrorView>
    decreases fuel,
{
    match plans[child as int].parent {
        None => Ok(entries),
        Some(p) => if fuel == 0 {
            Ok(entries)
        } else if entry_ids(entries[p as int]).contains(id) {
            Err(
                ErrorView::DuplicateId {
                    type_label: plans[p as int].label@,
                    id,
                    a: entry_text(
                        entries[p as int][crate::generator::position_of(
                            entry_ids(entries[p as int]),
                            id,
                        )->0],
                    ),
                    b: entry_text(AbstractRow { id: DataId(id), variant: child, slot }),
                },
            )
        } else {
            registered(
                plans,
                entries.update(
                    p as int,
                    entries[p as int].push(AbstractRow { id: DataId(id), variant: child, slot }),
                ),
                p,
                id,
                entries[p as int].len() as usize,
                (fuel - 1) as nat,
            )
        },
    }
}

/// The entries as they stand when the entering of a row ends: at the top,
/// or below the first arena that holds the id already, which is left as it
/// is.
pub open spec fn entered(
    plans: Seq<TablePlan>,
    entries: Seq<Seq<AbstractRow>>,
    child: usize,
    id: u32,
    slot: usize,
    fuel: nat,
) -> Seq<Seq<AbstractRow>>
    decreases fuel,
{
    match plans[child as int].parent {
        None => entries,
        Some(p) => if fuel == 0 || entry_ids(entries[p as int]).contains(id) {
            entries
        } else {
            entered(
                plans,
                entries.update(
                    p as int,
                    entries[p as int].push(AbstractRow { id: DataId(id), variant: child, slot }),
                ),
                p,
                id,
                entries[p as int].len() as usize,
                (fuel - 1) as nat,
            )
        },
    }
}

/// Where the entering of a row succeeds, the entries are as they stand at
/// its end.
pub proof fn lemma_registered_is_entered(
    plans: Seq<TablePlan>,
    entries: Seq<Seq<AbstractRow>>,
    child: usize,
    id: u32,
    slot: usize,
    fuel: nat,
)
    requires
        registered(plans, entries, child, id, slot, fuel) is Ok,
    ensures
        registered(plans, entries, child, id, slot, fuel)->Ok_0 == entered(
            plans,
            entries,
            child,
            id,
            slot,
            fuel,
        ),
    decreases fuel,
{
    if let Some(p) = plans[child as int].parent {
        if fuel > 0 {
            lemma_registered_is_entered(
                plans,
                entries.update(
                    p as int,
                    entries[p as int].push(AbstractRow { id: DataId(id), variant: child, slot }),
                ),
                p,
                id,
                entries[p as int].len() as usize,
                (fuel - 1) as nat,
            );
        }
    }
}

/// What is kept twice is kept.
pub proof fn lemma_keeps_twice(
    first: Seq<Seq<AbstractRow>>,
    second: Seq<Seq<AbstractRow>>,
    third: Seq<Seq<AbstractRow>>,
)
    requires
        keeps(first, second),
        keeps(second, third),
    ensures
        keeps(first, third),
{
    assert forall|t: int| 0 <= t < first.len() implies first[t].len() <= (#[trigger] third[t]).len() by {
        assert(first[t].len() <= second[t].len());
        assert(second[t].len() <= third[t].len());
    }
    assert forall|t: int, k: int|
        0 <= t < first.len() && 0 <= k < first[t].len() implies #[trigger] third[t][k]
        == first[t][k] by {
        assert(first[t].len() <= second[t].len());
        assert(second[t][k] == first[t][k]);
        assert(third[t][k] == second[t][k]);
    }
}

/// Entering a row never takes an entry away: what an arena held, it holds
/// at the same places, whether the entering succeeds or not.
pub proof fn lemma_entered_keeps(
    plans: Seq<TablePlan>,
    entries: Seq<Seq<AbstractRow>>,
    child: usize,
    id: u32,
    slot: usize,
    fuel: nat,
)
    requires
        entries.len() == plans.len(),
        child < plans.len(),
        chain_ends(plans, child, fuel),
    ensures
        keeps(entries, entered(plans, entries, child, id, slot, fuel)),
    decreases fuel,
{
    match plans[child as int].parent {
        None => {},
        Some(p) => {
            if fuel > 0 && !entry_ids(entries[p as int]).contains(id) {
                let entry = AbstractRow { id: DataId(id), variant: child, slot };
                let next = entries.update(p as int, entries[p as int].push(entry));
                lemma_entered_keeps(
                    plans,
                    next,
                    p,
                    id,
                    entries[p as int].len() as usize,
                    (fuel - 1) as nat,
                );
                let after = entered(plans, entries, child, id, slot, fuel);
                assert forall|t: int| 0 <= t < entries.len() implies entries[t].len() <= (
                #[trigger] after[t]).len() by {
                    assert(entries[t].len() <= next[t].len());
                }
                assert forall|t: int, k: int|
                    0 <= t < entries.len() && 0 <= k < entries[t].len() implies #[trigger] after[t][k]
                    == entries[t][k] by {
                    assert(next[t][k] == entries[t][k]);
                    assert(after[t][k] == next[t][k]);
                }
            }
        },
    }
}

/// The entries after the first `upto` of the rows of table `t` are entered
/// into the arenas above it, in order.
pub open spec fn registered_rows(
    plans: Seq<TablePlan>,
    entries: Seq<Seq<AbstractRow>>,
    t: usize,
    ids: Seq<u32>,
    upto: nat,
) -> Result<Seq<Seq<AbstractRow>>, ErrorView>
    decreases upto,
{
    if upto == 0 {
        Ok(entries)
    } else {
        match registered_rows(plans, entries, t, ids, (upto - 1) as nat) {
            Err(e) => Err(e),
            Ok(found) => registered(
                plans,
                found,
                t,
                ids[upto - 1],
                (upto - 1) as usize,
                plans.len(),
            ),
        }
    }
}

/// The store after table `t` is loaded from its sheet: a concrete table gets
/// the rows of the sheet, which are entered into the arenas above it; an
/// abstract table has nothing to load.
pub open spec fn loaded_table(
    plans: Seq<TablePlan>,
    sheets: Seq<Seq<Seq<CellView>>>,
    store: StoreView,
    t: usize,
) -> Result<StoreView, ErrorView> {
    if !plans[t as int].concrete {
        Ok(store)
    } else {
        match loaded_rows(plans[t as int], sheets[t as int]) {
            Err(e) => Err(e),
            Ok(rows) => match registered_rows(
                plans,
                store.entries,
                t,
                row_ids(rows),
                rows.len(),
            ) {
                Err(e) => Err(e),
                Ok(entries) => Ok(StoreView { rows: store.rows.update(t as int, rows), entries }),
            },
        }
    }
}

/// The store after the first `upto` tables of `order` are loaded, in order.
pub open spec fn loaded_tables(
    plans: Seq<TablePlan>,
    sheets: Seq<Seq<Seq<CellView>>>,
    store: StoreView,
    order: Seq<usize>,
    upto: nat,
) -> Result<StoreView, ErrorView>
    decreases upto,
{
    if upto == 0 {
        Ok(store)
    } else {
        match loaded_tables(plans, sheets, store, order, (upto - 1) as nat) {
            Err(e) => Err(e),
            Ok(found) => loaded_table(plans, sheets, found, order[upto - 1]),
        }
    }
}

/// The store after the first `upto` levels are loaded, in order.
pub open spec fn loaded_levels(
    plans: Seq<TablePlan>,
    sheets: Seq<Seq<Seq<CellView>>>,
    store: StoreView,
    levels: Seq<Seq<usize>>,
    upto: nat,
) -> Result<StoreView, ErrorView>
    decreases upto,
{
    if upto == 0 {
        Ok(store)
    } else {
        match loaded_levels(plans, sheets, store, levels, (upto - 1) as nat) {
            Err(e) => Err(e),
            Ok(found) => loaded_tables(
                plans,
                sheets,
                found,
                levels[upto - 1],
                levels[upto - 1].len(),
            ),
        }
    }
}

/// The first `upto` rows of a table with their links resolved. The first
/// row with a link that cannot be resolved decides the error, which names
/// the row by its id.
pub open spec fn resolved_rows(
    plan: TablePlan,
    rows: Seq<RowView>,
    maps: Seq<Map<u32, usize>>,
    upto: nat,
) -> Result<Seq<RowView>, ErrorView>
    decreases upto,
{
    if upto == 0 {
        Ok(Seq::empty())
    } else {
        match resolved_rows(plan, rows, maps, (upto - 1) as nat) {
            Err(e) => Err(e),
            Ok(done) => match resolved_row(rows[upto - 1], plan.fields@, maps) {
                Err(error) => Err(
                    ErrorView::Link {
                        workbook: plan.workbook@,
                        sheet: plan.sheet@,
                        id: rows[upto - 1].id,
                        error,
                    },
                ),
                Ok(row) => Ok(done.push(row)),
            },
        }
    }
}

/// The rows of the first `upto` tables with their links resolved.
pub open spec fn resolved_tables(
    plans: Seq<TablePlan>,
    rows: Seq<Seq<RowView>>,
    maps: Seq<Map<u32, usize>>,
    upto: nat,
) -> Result<Seq<Seq<RowView>>, ErrorView>
    decreases upto,
{
    if upto == 0 {
        Ok(Seq::empty())
    } else {
        match resolved_tables(plans, rows, maps, (upto - 1) as nat) {
            Err(e) => Err(e),
            Ok(done) => match resolved_rows(
                plans[upto - 1],
                rows[upto - 1],
                maps,
                rows[upto - 1].len(),
            ) {
                Err(e) => Err(e),
                Ok(table) => Ok(done.push(table)),
            },
        }
    }
}

/// The index of a table: for each id of its rows or entries, the first
/// position of the id.
pub open spec fn index_of_ids(ids: Seq<u32>) -> Map<u32, usize> {
    Map::new(
        |id: u32| ids.contains(id),
        |id: u32| crate::generator::position_of(ids, id)->0 as usize,
    )
}

impl StoreView {
    /// The ids held by table `t`.
    pub open spec fn ids(self, t: int) -> Seq<u32> {
        row_ids(self.rows[t]) + entry_ids(self.entries[t])
    }

    /// The indexes of the tables.
    pub open spec fn maps(self) -> Seq<Map<u32, usize>> {
        Seq::new(self.rows.len(), |t: int| index_of_ids(self.ids(t)))
    }

    /// The store of `n` tables that hold nothing.
    pub open spec fn empty(n: nat) -> StoreView {
        StoreView {
            rows: Seq::new(n, |t: int| Seq::<RowView>::empty()),
            entries: Seq::new(n, |t: int| Seq::<AbstractRow>::empty()),
        }
    }
}

/// The store that the sheets load as: the tables are loaded level by level,
/// then the links of all rows are resolved.
pub open spec fn loaded_store(
    plans: Seq<TablePlan>,
    sheets: Seq<Seq<Seq<CellView>>>,
    levels: Seq<Seq<usize>>,
) -> Result<StoreView, ErrorView> {
    match loaded_levels(plans, sheets, StoreView::empty(plans.len()), levels, levels.len()) {
        Err(e) => Err(e),
        Ok(store) => match resolved_tables(plans, store.rows, store.maps(), plans.len()) {
            Err(e) => Err(e),
            Ok(rows) => Ok(StoreView { rows, entries: store.entries }),
        },
    }
}

/// The views of the cells of all sheets.
pub open spec fn sheets_view(sheets: Seq<Vec<Vec<Cell>>>) -> Seq<Seq<Seq<CellView>>> {
    sheets.map_values(|s: Vec<Vec<Cell>>| sheet_view(s@))
}

impl View for DataStore {
    type V = StoreView;

    open spec fn view(&self) -> StoreView {
        StoreView {
            rows: self.rows@.map_values(|r: Vec<Row>| rows_view(r@)),
            entries: self.entries@.map_values(|e: Vec<AbstractRow>| e@),
        }
    }
}

impl DataStore {
    /// Every table has its rows or its entries, and its index finds each of
    /// them by its id.
    pub open spec fn wf(&self, plans: Seq<TablePlan>) -> bool {
        &&& self.rows@.len() == plans.len()
        &&& self.entries@.len() == plans.len()
        &&& self.indexes@.len() == plans.len()
        &&& forall|t: int|
            0 <= t < plans.len() ==> {
                &&& (#[trigger] plans[t]).concrete ==> self.entries@[t]@.len() == 0
                &&& !plans[t].concrete ==> self.rows@[t]@.len() == 0
                &&& index_matches(self.indexes@[t]@, self@.ids(t))
            }
    }

    /// A store of as many tables as there are plans, which hold nothing.
    pub fn new(plans: &Vec<TablePlan>) -> (r: Self)
        ensures
            r.wf(plans@),
            r@ == StoreView::empty(plans@.len()),
    {
        let n = plans.len();
        let mut store = DataStore { rows: Vec::new(), entries: Vec::new(), indexes: Vec::new() };
        let mut t: usize = 0;
        while t < n
            invariant
                t <= n,
                n == plans@.len(),
                store.rows@.len() == t,
                store.entries@.len() == t,
                store.indexes@.len() == t,
                forall|k: int|
                    0 <= k < t ==> (#[trigger] store.rows@[k])@.len() == 0 && store.entries@[k]@.len()
                        == 0 && store.indexes@[k]@ == Map::<u32, usize>::empty(),
            decreases n - t,
        {
            store.rows.push(Vec::new());
            store.entries.push(Vec::new());
            store.indexes.push(HashMap::new());
            t += 1;
        }
        proof {
            assert forall|k: int| 0 <= k < n implies store@.rows[k] == Seq::<RowView>::empty()
                && store@.entries[k] == Seq::<AbstractRow>::empty() by {
                assert(store.rows@[k]@.len() == 0);
                assert(rows_view(store.rows@[k]@) =~= Seq::<RowView>::empty());
                assert(store.entries@[k]@ =~= Seq::<AbstractRow>::empty());
            }
            assert(store@.rows =~= StoreView::empty(n as nat).rows);
            assert(store@.entries =~= StoreView::empty(n as nat).entries);
            assert forall|t: int| 0 <= t < plans@.len() implies {
                &&& (#[trigger] plans@[t]).concrete ==> store.entries@[t]@.len() == 0
                &&& !plans@[t].concrete ==> store.rows@[t]@.len() == 0
                &&& index_matches(store.indexes@[t]@, store@.ids(t))
            } by {
                assert(store.rows@[t]@.len() == 0);
                assert(store@.ids(t) =~= Seq::<u32>::empty());
            }
        }
        store
    }

    /// The row of a concrete table at a place.
    pub fn row(&self, place: crate::data::RowRef) -> (r: Option<&Row>)
        ensures
            match r {
                Some(row) => place.table < self.rows@.len() && place.slot
                    < self.rows@[place.table as int]@.len()
                    && *row == self.rows@[place.table as int]@[place.slot as int],
                None => !(place.table < self.rows@.len() && place.slot
                    < self.rows@[place.table as int]@.len()),
            },
    {
        if place.table < self.rows.len() && place.slot < self.rows[place.table].len() {
            Some(&self.rows[place.table][place.slot])
        } else {
            None
        }
    }

    /// The entry of an abstract table at a place.
    pub fn entry(&self, place: crate::data::RowRef) -> (r: Option<AbstractRow>)
        ensures
            match r {
                Some(e) => place.table < self.entries@.len() && place.slot
                    < self.entries@[place.table as int]@.len()
                    && e == self.entries@[place.table as int]@[place.slot as int],
                None => !(place.table < self.entries@.len() && place.slot
                    < self.entries@[place.table as int]@.len()),
            },
    {
        if place.table < self.entries.len() && place.slot < self.entries[place.table].len() {
            Some(self.entries[place.table][place.slot])
        } else {
            None
        }
    }

    /// The place in table `table` of the row or entry with that id.
    pub fn find(&self, table: usize, id: &DataId) -> (r: Option<crate::data::RowRef>)
        requires
            table < self.indexes@.len(),
        ensures
            match r {
                Some(place) => place.table == table && self.indexes@[table as int]@.contains_key(
                    id.0,
                ) && place.slot == self.indexes@[table as int]@[id.0],
                None => !self.indexes@[table as int]@.contains_key(id.0),
            },
    {
        match self.indexes[table].get(&id.0) {
            Some(k) => Some(crate::data::RowRef { table, slot: *k }),
            None => None,
        }
    }
}

/// An index that matches ids still matches them when a fresh id is put
/// behind them and into the index.
proof fn lemma_index_push(index: Map<u32, usize>, ids: Seq<u32>, id: u32)
    requires
        index_matches(index, ids),
        !index.contains_key(id),
        ids.len() <= usize::MAX,
    ensures
        index_matches(index.insert(id, ids.len() as usize), ids.push(id)),
        !ids.contains(id),
{
    let after = index.insert(id, ids.len() as usize);
    let longer = ids.push(id);
    assert forall|x: u32| #[trigger] after.contains_key(x) implies after[x] < longer.len()
        && longer[after[x] as int] == x by {
        if x != id {
            assert(index.contains_key(x));
        }
    }
    assert forall|k: int| 0 <= k < longer.len() implies after.contains_key(#[trigger] longer[k])
        && after[longer[k]] == k by {
        if k < ids.len() {
            assert(index.contains_key(ids[k]));
        }
    }
}

/// An index that matches ids holds an id exactly where the ids do, at the
/// first and only position of the id.
proof fn lemma_index_is_position(index: Map<u32, usize>, ids: Seq<u32>)
    requires
        index_matches(index, ids),
    ensures
        index =~= index_of_ids(ids),
{
    assert forall|id: u32| index.contains_key(id) <==> ids.contains(id) by {
        if ids.contains(id) {
            let k = choose|k: int| 0 <= k < ids.len() && ids[k] == id;
            assert(index.contains_key(ids[k]));
        }
        if index.contains_key(id) {
            assert(ids[index[id] as int] == id);
        }
    }
    assert forall|id: u32| index.contains_key(id) implies index[id] == index_of_ids(ids)[id] by {
        crate::generator::lemma_position_of(ids, id);
        assert(ids[index[id] as int] == id);
        let k = crate::generator::position_of(ids, id)->0;
        assert(index.contains_key(ids[k]));
    }
}

/// A fault among the first rows entered is the fault of them all.
proof fn lemma_registered_rows_prefix(
    plans: Seq<TablePlan>,
    entries: Seq<Seq<AbstractRow>>,
    t: usize,
    ids: Seq<u32>,
    upto: nat,
    total: nat,
)
    requires
        upto <= total,
        registered_rows(plans, entries, t, ids, upto) is Err,
    ensures
        registered_rows(plans, entries, t, ids, total) == registered_rows(
            plans,
            entries,
            t,
            ids,
            upto,
        ),
    decreases total - upto,
{
    if upto < total {
        lemma_registered_rows_prefix(plans, entries, t, ids, upto + 1, total);
    }
}

proof fn lemma_loaded_tables_prefix(
    plans: Seq<TablePlan>,
    sheets: Seq<Seq<Seq<CellView>>>,
    store: StoreView,
    order: Seq<usize>,
    upto: nat,
    total: nat,
)
    requires
        upto <= total,
        loaded_tables(plans, sheets, store, order, upto) is Err,
    ensures
        loaded_tables(plans, sheets, store, order, total) == loaded_tables(
            plans,
            sheets,
            store,
            order,
            upto,
        ),
    decreases total - upto,
{
    if upto < total {
        lemma_loaded_tables_prefix(plans, sheets, store, order, upto + 1, total);
    }
}

proof fn lemma_loaded_levels_prefix(
    plans: Seq<TablePlan>,
    sheets: Seq<Seq<Seq<CellView>>>,
    store: StoreView,
    levels: Seq<Seq<usize>>,
    upto: nat,
    total: nat,
)
    requires
        upto <= total,
        loaded_levels(plans, sheets, store, levels, upto) is Err,
    ensures
        loaded_levels(plans, sheets, store, levels, total) == loaded_levels(
            plans,
            sheets,
            store,
            levels,
            upto,
        ),
    decreases total - upto,
{
    if upto < total {
        lemma_loaded_levels_prefix(plans, sheets, store, levels, upto + 1, total);
    }
}

proof fn lemma_resolved_rows_prefix(
    plan: TablePlan,
    rows: Seq<RowView>,
    maps: Seq<Map<u32, usize>>,
    upto: nat,
    total: nat,
)
    requires
        upto <= total,
        resolved_rows(plan, rows, maps, upto) is Err,
    ensures
        resolved_rows(plan, rows, maps, total) == resolved_rows(plan, rows, maps, upto),
    decreases total - upto,
{
    if upto < total {
        lemma_resolved_rows_prefix(plan, rows, maps, upto + 1, total);
    }
}

proof fn lemma_resolved_tables_prefix(
    plans: Seq<TablePlan>,
    rows: Seq<Seq<RowView>>,
    maps: Seq<Map<u32, usize>>,
    upto: nat,
    total: nat,
)
    requires
        upto <= total,
        resolved_tables(plans, rows, maps, upto) is Err,
    ensures
        resolved_tables(plans, rows, maps, total) == resolved_tables(plans, rows, maps, upto),
    decreases total - upto,
{
    if upto < total {
        lemma_resolved_tables_prefix(plans, rows, maps, upto + 1, total);
    }
}

/// Resolving the links of rows keeps their number and their ids.
pub proof fn lemma_resolved_rows_ids(
    plan: TablePlan,
    rows: Seq<RowView>,
    maps: Seq<Map<u32, usize>>,
    upto: nat,
)
    requires
        upto <= rows.len(),
        resolved_rows(plan, rows, maps, upto) is Ok,
    ensures
        resolved_rows(plan, rows, maps, upto)->Ok_0.len() == upto,
        row_ids(resolved_rows(plan, rows, maps, upto)->Ok_0) == row_ids(rows.take(upto as int)),
    decreases upto,
{
    if upto > 0 {
        lemma_resolved_rows_ids(plan, rows, maps, (upto - 1) as nat);
        let done = resolved_rows(plan, rows, maps, (upto - 1) as nat)->Ok_0;
        let row = resolved_row(rows[upto - 1], plan.fields@, maps)->Ok_0;
        assert(rows.take(upto as int).drop_last() == rows.take(upto - 1));
        assert(row.id == rows[upto - 1].id);
        assert(rows.take(upto as int) == rows.take(upto - 1).push(rows[upto - 1]));
        assert(row_ids(rows.take(upto - 1).push(rows[upto - 1])) =~= row_ids(
            rows.take(upto - 1),
        ).push(rows[upto - 1].id));
        assert(row_ids(done.push(row)) =~= row_ids(done).push(row.id));
    } else {
        assert(row_ids(Seq::<RowView>::empty()) =~= row_ids(rows.take(0)));
    }
}

impl DataStore {
    /// Enters a row of table `child`, at `slot`, into the arenas of the
    /// tables above `child`. Where an arena holds the id already, that arena
    /// and all above it are left as they are.
    pub fn register(&mut self, plans: &Vec<TablePlan>, child: usize, id: DataId, slot: usize) -> (r:
        Result<(), Error>)
        requires
            old(self).wf(plans@),
            hierarchy_wf(plans@),
            child < plans@.len(),
        ensures
            final(self).wf(plans@),
            final(self).rows == old(self).rows,
            final(self)@.rows == old(self)@.rows,
            final(self)@.entries == entered(
                plans@,
                old(self)@.entries,
                child,
                id.0,
                slot,
                plans@.len(),
            ),
            match r {
                Ok(_) => registered(plans@, old(self)@.entries, child, id.0, slot, plans@.len())
                    == Ok::<Seq<Seq<AbstractRow>>, ErrorView>(final(self)@.entries),
                Err(e) => registered(plans@, old(self)@.entries, child, id.0, slot, plans@.len())
                    == Err::<Seq<Seq<AbstractRow>>, ErrorView>(e@),
            },
    {
        let ghost goal = registered(plans@, self@.entries, child, id.0, slot, plans@.len());
        let ghost end = entered(plans@, self@.entries, child, id.0, slot, plans@.len());
        let mut current = child;
        let mut place = slot;
        let mut fuel = plans.len();
        proof {
            assert(plans@[child as int].parent is None || plans@[child as int].parent is Some);
            assert(chain_ends(plans@, child, plans@.len()));
        }
        loop
            invariant
                self.wf(plans@),
                hierarchy_wf(plans@),
                self.rows == old(self).rows,
                current < plans@.len(),
                fuel <= plans@.len(),
                chain_ends(plans@, current, fuel as nat),
                goal == registered(plans@, self@.entries, current, id.0, place, fuel as nat),
                goal == registered(plans@, old(self)@.entries, child, id.0, slot, plans@.len()),
                end == entered(plans@, self@.entries, current, id.0, place, fuel as nat),
                end == entered(plans@, old(self)@.entries, child, id.0, slot, plans@.len()),
            ensures
                self.wf(plans@),
                self.rows == old(self).rows,
                goal == Ok::<Seq<Seq<AbstractRow>>, ErrorView>(self@.entries),
                goal == registered(plans@, old(self)@.entries, child, id.0, slot, plans@.len()),
                end == self@.entries,
                end == entered(plans@, old(self)@.entries, child, id.0, slot, plans@.len()),
            decreases fuel,
        {
            let parent = match plans[current].parent {
                None => {
                    break ;
                },
                Some(parent) => parent,
            };
            proof {
                assert(parent < plans@.len() && !plans@[parent as int].concrete);
                assert(self.rows@[parent as int]@.len() == 0);
                assert(self@.ids(parent as int) =~= entry_ids(self@.entries[parent as int]));
                lemma_index_is_position(
                    self.indexes@[parent as int]@,
                    self@.ids(parent as int),
                );
                assert(fuel > 0);
            }
            let held = match self.indexes[parent].get(&id.0) {
                Some(k) => Some(*k),
                None => None,
            };
            if let Some(k) = held {
                proof {
                    assert(self@.rows =~= old(self)@.rows);
                    crate::generator::lemma_position_of(
                        entry_ids(self@.entries[parent as int]),
                        id.0,
                    );
                    assert(self@.entries[parent as int][k as int] == self.entries@[parent as int]@[k
                        as int]);
                }
                return Err(
                    Error::DuplicateId {
                        type_label: plans[parent].label.clone(),
                        id,
                        a: self.entries[parent][k].to_text(),
                        b: (AbstractRow { id, variant: current, slot: place }).to_text(),
                    },
                );
            }
            let ghost before = self@;
            let ghost start = *self;
            let next = self.entries[parent].len();
            proof {
                lemma_index_push(
                    self.indexes@[parent as int]@,
                    self@.ids(parent as int),
                    id.0,
                );
            }
            self.entries[parent].push(AbstractRow { id, variant: current, slot: place });
            self.indexes[parent].insert(id.0, next);
            proof {
                let entry = AbstractRow { id, variant: current, slot: place };
                assert(self@.entries =~= before.entries.update(
                    parent as int,
                    before.entries[parent as int].push(entry),
                ));
                assert(self@.rows =~= before.rows);
                assert forall|t: int| 0 <= t < plans@.len() implies {
                    &&& (#[trigger] plans@[t]).concrete ==> self.entries@[t]@.len() == 0
                    &&& !plans@[t].concrete ==> self.rows@[t]@.len() == 0
                    &&& index_matches(self.indexes@[t]@, self@.ids(t))
                } by {
                    if t == parent {
                        assert(self@.ids(t) =~= before.ids(t).push(id.0));
                    } else {
                        assert(plans@[t].concrete ==> start.entries@[t]@.len() == 0);
                        assert(self@.ids(t) =~= before.ids(t));
                        assert(index_matches(start.indexes@[t]@, before.ids(t)));
                    }
                }
            }
            current = parent;
            place = next;
            fuel = fuel - 1;
        }
        proof {
            assert(self@.rows =~= old(self)@.rows);
        }
        Ok(())
    }

    /// Loads table `t` from its sheet and enters its rows into the arenas of
    /// the tables above it. An abstract table has nothing to load. Whether it
    /// succeeds or not, no arena loses an entry and the rows of the other
    /// tables are left as they are; where the sheet does not load, so is the
    /// whole store.
    pub fn load_table(&mut self, plans: &Vec<TablePlan>, sheets: &Vec<Vec<Vec<Cell>>>, t: usize) -> (r:
        Result<(), Error>)
        requires
            old(self).wf(plans@),
            hierarchy_wf(plans@),
            plans_wf(plans@),
            sheets@.len() == plans@.len(),
            t < plans@.len(),
        ensures
            final(self).wf(plans@),
            keeps(old(self)@.entries, final(self)@.entries),
            forall|u: int|
                0 <= u < plans@.len() && u != t ==> #[trigger] final(self)@.rows[u] == old(
                    self,
                )@.rows[u],
            plans@[t as int].concrete && loaded_rows(
                plans@[t as int],
                sheets_view(sheets@)[t as int],
            ) is Err ==> *final(self) == *old(self),
            match r {
                Ok(_) => loaded_table(plans@, sheets_view(sheets@), old(self)@, t) == Ok::<
                    StoreView,
                    ErrorView,
                >(final(self)@),
                Err(e) => loaded_table(plans@, sheets_view(sheets@), old(self)@, t) == Err::<
                    StoreView,
                    ErrorView,
                >(e@),
            },
    {
        proof {
            assert(keeps(self@.entries, self@.entries));
        }
        if !plans[t].concrete {
            return Ok(());
        }
        let ghost before = self@;
        let ghost start = *self;
        assert(sheets_view(sheets@)[t as int] == sheet_view(sheets@[t as int]@));
        let arena = match Arena::load(&sheets[t], &plans[t]) {
            Err(e) => {
                return Err(e);
            },
            Ok(arena) => arena,
        };
        let ghost loaded = rows_view(arena.rows@);
        let ghost ids = row_ids(loaded);
        proof {
            assert forall|k: int| 0 <= k < arena.rows@.len() implies ids[k]
                == arena.rows@[k].id.0 by {
                assert(loaded[k] == arena.rows@[k]@);
            }
            assert(index_matches(arena.index@, ids));
        }
        let count = arena.rows.len();
        self.rows.set(t, arena.rows);
        self.indexes.set(t, arena.index);
        proof {
            assert(self@.rows =~= before.rows.update(t as int, loaded));
            assert(self@.entries =~= before.entries);
            assert forall|k: int| 0 <= k < plans@.len() implies {
                &&& (#[trigger] plans@[k]).concrete ==> self.entries@[k]@.len() == 0
                &&& !plans@[k].concrete ==> self.rows@[k]@.len() == 0
                &&& index_matches(self.indexes@[k]@, self@.ids(k))
            } by {
                if k == t {
                    assert(self@.ids(k) =~= ids);
                } else {
                    assert(plans@[k].concrete ==> start.entries@[k]@.len() == 0);
                    assert(!plans@[k].concrete ==> start.rows@[k]@.len() == 0);
                    assert(self@.ids(k) =~= before.ids(k));
                    assert(index_matches(start.indexes@[k]@, before.ids(k)));
                }
            }
        }
        let ghost rows_now = self.rows;
        let mut k: usize = 0;
        while k < count
            invariant
                k <= count,
                count == loaded.len(),
                t < plans@.len(),
                self.wf(plans@),
                hierarchy_wf(plans@),
                self.rows == rows_now,
                rows_now@[t as int]@.len() == count,
                rows_view(rows_now@[t as int]@) == loaded,
                ids == row_ids(loaded),
                before == old(self)@,
                before.rows.len() == plans@.len(),
                before.entries.len() == plans@.len(),
                keeps(before.entries, self@.entries),
                plans@[t as int].concrete,
                loaded_rows(plans@[t as int], sheets_view(sheets@)[t as int]) == Ok::<
                    Seq<RowView>,
                    ErrorView,
                >(loaded),
                self@.rows == before.rows.update(t as int, loaded),
                registered_rows(plans@, before.entries, t, ids, k as nat) == Ok::<
                    Seq<Seq<AbstractRow>>,
                    ErrorView,
                >(self@.entries),
            decreases count - k,
        {
            let id = self.rows[t][k].id;
            let ghost entries_now = self@.entries;
            proof {
                assert(loaded[k as int] == rows_now@[t as int]@[k as int]@);
                assert(ids[k as int] == id.0);
                assert(plans@[t as int].parent is None || plans@[t as int].parent is Some);
                lemma_entered_keeps(plans@, entries_now, t, id.0, k, plans@.len());
                lemma_keeps_twice(
                    before.entries,
                    entries_now,
                    entered(plans@, entries_now, t, id.0, k, plans@.len()),
                );
            }
            match self.register(plans, t, id, k) {
                Err(e) => {
                    proof {
                        assert(registered_rows(plans@, before.entries, t, ids, (k + 1) as nat)
                            == Err::<Seq<Seq<AbstractRow>>, ErrorView>(e@));
                        lemma_registered_rows_prefix(
                            plans@,
                            before.entries,
                            t,
                            ids,
                            (k + 1) as nat,
                            count as nat,
                        );
                    }
                    return Err(e);
                },
                Ok(_) => {},
            }
            k += 1;
        }
        Ok(())
    }
}

/// The rows of a table with their links resolved.
fn resolve_rows(rows: Vec<Row>, plan: &TablePlan, indexes: &Vec<HashMap<u32, usize>>) -> (r: Result<
    Vec<Row>,
    Error,
>)
    ensures
        match r {
            Ok(done) => resolved_rows(
                *plan,
                rows_view(rows@),
                indexes_view(indexes@),
                rows@.len(),
            ) == Ok::<Seq<RowView>, ErrorView>(rows_view(done@)),
            Err(e) => resolved_rows(*plan, rows_view(rows@), indexes_view(indexes@), rows@.len())
                == Err::<Seq<RowView>, ErrorView>(e@),
        },
{
    let ghost all = rows_view(rows@);
    let ghost maps = indexes_view(indexes@);
    let mut rest = reversed(rows);
    let total = rest.len();
    let mut done: Vec<Row> = Vec::new();
    assert(rows_view(done@) == Seq::<RowView>::empty());
    while rest.len() > 0
        invariant
            maps == indexes_view(indexes@),
            all == rows_view(rows@),
            all.len() == total,
            done.len() + rest.len() == total,
            forall|k: int| 0 <= k < rest@.len() ==> (#[trigger] rest@[k])@ == all[total - 1 - k],
            resolved_rows(*plan, all, maps, done.len() as nat) == Ok::<Seq<RowView>, ErrorView>(
                rows_view(done@),
            ),
        decreases rest.len(),
    {
        let position = done.len();
        let row = rest.pop().unwrap();
        let id = row.id;
        proof {
            assert(row@ == all[position as int]);
        }
        match resolve_row(row, &plan.fields, indexes) {
            Ok(next) => {
                let ghost before = rows_view(done@);
                done.push(next);
                assert(rows_view(done@) == before.push(next@));
            },
            Err(error) => {
                let e = Error::Link {
                    workbook: plan.workbook.clone(),
                    sheet: plan.sheet.clone(),
                    id,
                    error,
                };
                proof {
                    assert(resolved_rows(*plan, all, maps, (position + 1) as nat) == Err::<
                        Seq<RowView>,
                        ErrorView,
                    >(e@));
                    lemma_resolved_rows_prefix(*plan, all, maps, (position + 1) as nat, total as nat);
                }
                return Err(e);
            },
        }
    }
    Ok(done)
}

impl DataStore {
    /// The index of every table is the index of its ids.
    pub proof fn lemma_indexes(&self, plans: Seq<TablePlan>)
        requires
            self.wf(plans),
        ensures
            indexes_view(self.indexes@) == self@.maps(),
    {
        assert forall|t: int| 0 <= t < plans.len() implies indexes_view(self.indexes@)[t]
            == self@.maps()[t] by {
            assert(plans[t].concrete ==> self.entries@[t]@.len() == 0);
            assert(index_matches(self.indexes@[t]@, self@.ids(t)));
            lemma_index_is_position(self.indexes@[t]@, self@.ids(t));
        }
        assert(indexes_view(self.indexes@) =~= self@.maps());
    }

    /// Resolves the links of all rows, table by table.
    pub fn resolve_links(&mut self, plans: &Vec<TablePlan>) -> (r: Result<(), Error>)
        requires
            old(self).wf(plans@),
        ensures
            match r {
                Ok(_) => final(self).wf(plans@) && resolved_tables(
                    plans@,
                    old(self)@.rows,
                    old(self)@.maps(),
                    plans@.len(),
                ) == Ok::<Seq<Seq<RowView>>, ErrorView>(final(self)@.rows) && final(self)@.entries
                    == old(self)@.entries,
                Err(e) => resolved_tables(
                    plans@,
                    old(self)@.rows,
                    old(self)@.maps(),
                    plans@.len(),
                ) == Err::<Seq<Seq<RowView>>, ErrorView>(e@),
            },
    {
        let ghost before = self@;
        let ghost maps = self@.maps();
        proof {
            self.lemma_indexes(plans@);
        }
        let n = plans.len();
        let mut t: usize = 0;
        assert(self@.rows.take(0) == Seq::<Seq<RowView>>::empty());
        while t < n
            invariant
                t <= n,
                n == plans@.len(),
                self.wf(plans@),
                before == old(self)@,
                maps == before.maps(),
                maps == indexes_view(self.indexes@),
                self@.entries == before.entries,
                self@.rows.len() == n,
                before.rows.len() == n,
                forall|k: int| t <= k < n ==> self@.rows[k] == before.rows[k],
                forall|k: int| 0 <= k < n ==> row_ids(#[trigger] self@.rows[k]) == row_ids(
                    before.rows[k],
                ),
                resolved_tables(plans@, before.rows, maps, t as nat) == Ok::<
                    Seq<Seq<RowView>>,
                    ErrorView,
                >(self@.rows.take(t as int)),
            decreases n - t,
        {
            let ghost start = *self;
            let ghost now = self@;
            let mut rows: Vec<Row> = Vec::new();
            std::mem::swap(&mut rows, &mut self.rows[t]);
            let ghost taken = rows_view(rows@);
            proof {
                assert(taken == now.rows[t as int]);
                assert(taken == before.rows[t as int]);
            }
            let done = match resolve_rows(rows, &plans[t], &self.indexes) {
                Err(e) => {
                    proof {
                        assert(resolved_tables(plans@, before.rows, maps, (t + 1) as nat) == Err::<
                            Seq<Seq<RowView>>,
                            ErrorView,
                        >(e@));
                        lemma_resolved_tables_prefix(
                            plans@,
                            before.rows,
                            maps,
                            (t + 1) as nat,
                            n as nat,
                        );
                    }
                    return Err(e);
                },
                Ok(done) => done,
            };
            let ghost fresh = rows_view(done@);
            proof {
                lemma_resolved_rows_ids(plans@[t as int], taken, maps, taken.len());
                assert(taken.take(taken.len() as int) == taken);
            }
            self.rows.set(t, done);
            proof {
                assert(self@.rows =~= now.rows.update(t as int, fresh));
                assert(self@.entries =~= now.entries);
                assert(self@.rows.take(t + 1) =~= now.rows.take(t as int).push(fresh));
                assert forall|k: int| 0 <= k < plans@.len() implies {
                    &&& (#[trigger] plans@[k]).concrete ==> self.entries@[k]@.len() == 0
                    &&& !plans@[k].concrete ==> self.rows@[k]@.len() == 0
                    &&& index_matches(self.indexes@[k]@, self@.ids(k))
                } by {
                    assert(plans@[k].concrete ==> start.entries@[k]@.len() == 0);
                    assert(!plans@[k].concrete ==> start.rows@[k]@.len() == 0);
                    assert(index_matches(start.indexes@[k]@, now.ids(k)));
                    if k == t {
                        assert(fresh.len() == taken.len());
                        assert(done@.len() == fresh.len());
                        assert(start.rows@[k]@.len() == taken.len());
                        assert(self@.ids(k) =~= now.ids(k));
                    } else {
                        assert(self@.ids(k) =~= now.ids(k));
                    }
                }
            }
            t += 1;
        }
        assert(self@.rows.take(n as int) == self@.rows);
        Ok(())
    }

    /// Loads all tables: level by level, each concrete table from its sheet,
    /// entering its rows into the arenas of the tables above it; then the
    /// links of all rows are resolved. `sheets` holds for each table, by
    /// index, the data rows of its sheet. The levels name no table twice, so
    /// that every arena is written once. Nothing is returned unless every
    /// table is loaded and every link resolved.
    pub fn load_all(
        plans: &Vec<TablePlan>,
        sheets: &Vec<Vec<Vec<Cell>>>,
        levels: &Vec<Vec<usize>>,
    ) -> (r: Result<DataStore, Error>)
        requires
            plans_wf(plans@),
            hierarchy_wf(plans@),
            sheets@.len() == plans@.len(),
            forall|l: int, k: int|
                0 <= l < levels@.len() && 0 <= k < levels@[l]@.len() ==> (#[trigger] levels@[l]@[k])
                    < plans@.len(),
            levels_name_once(graph_of(levels@)),
        ensures
            match r {
                Ok(store) => store.wf(plans@) && loaded_store(
                    plans@,
                    sheets_view(sheets@),
                    graph_of(levels@),
                ) == Ok::<StoreView, ErrorView>(store@),
                Err(e) => loaded_store(plans@, sheets_view(sheets@), graph_of(levels@)) == Err::<
                    StoreView,
                    ErrorView,
                >(e@),
            },
    {
        let ghost cells = sheets_view(sheets@);
        let ghost order = graph_of(levels@);
        let ghost empty = StoreView::empty(plans@.len());
        let mut store = DataStore::new(plans);
        let mut l: usize = 0;
        while l < levels.len()
            invariant
                l <= levels.len(),
                plans_wf(plans@),
                hierarchy_wf(plans@),
                sheets@.len() == plans@.len(),
                forall|i: int, k: int|
                    0 <= i < levels@.len() && 0 <= k < levels@[i]@.len() ==> (
                    #[trigger] levels@[i]@[k]) < plans@.len(),
                cells == sheets_view(sheets@),
                order == graph_of(levels@),
                empty == StoreView::empty(plans@.len()),
                store.wf(plans@),
                loaded_levels(plans@, cells, empty, order, l as nat) == Ok::<
                    StoreView,
                    ErrorView,
                >(store@),
            decreases levels.len() - l,
        {
            let level = &levels[l];
            let ghost at_level = store@;
            proof {
                assert(order[l as int] == level@);
            }
            let mut j: usize = 0;
            while j < level.len()
                invariant
                    j <= level.len(),
                    l < levels.len(),
                    *level == levels@[l as int],
                    plans_wf(plans@),
                    hierarchy_wf(plans@),
                    sheets@.len() == plans@.len(),
                    forall|k: int| 0 <= k < level@.len() ==> level@[k] < plans@.len(),
                    cells == sheets_view(sheets@),
                    order == graph_of(levels@),
                    order[l as int] == level@,
                    empty == StoreView::empty(plans@.len()),
                    store.wf(plans@),
                    loaded_levels(plans@, cells, empty, order, l as nat) == Ok::<
                        StoreView,
                        ErrorView,
                    >(at_level),
                    loaded_tables(plans@, cells, at_level, level@, j as nat) == Ok::<
                        StoreView,
                        ErrorView,
                    >(store@),
                decreases level.len() - j,
            {
                match store.load_table(plans, sheets, level[j]) {
                    Err(e) => {
                        proof {
                            assert(loaded_tables(plans@, cells, at_level, level@, (j + 1) as nat)
                                == Err::<StoreView, ErrorView>(e@));
                            lemma_loaded_tables_prefix(
                                plans@,
                                cells,
                                at_level,
                                level@,
                                (j + 1) as nat,
                                level@.len(),
                            );
                            assert(loaded_levels(plans@, cells, empty, order, (l + 1) as nat)
                                == Err::<StoreView, ErrorView>(e@));
                            lemma_loaded_levels_prefix(
                                plans@,
                                cells,
                                empty,
                                order,
                                (l + 1) as nat,
                                order.len(),
                            );
                        }
                        return Err(e);
                    },
                    Ok(_) => {},
                }
                j += 1;
            }
            l += 1;
        }
        proof {
            assert(order.len() == levels@.len());
        }
        match store.resolve_links(plans) {
            Err(e) => Err(e),
            Ok(_) => Ok(store),
        }
    }
}

} // verus!
