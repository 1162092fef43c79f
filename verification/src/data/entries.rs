//! After loading, every entry of an abstract arena leads to what it was
//! made for: the table it names extends the table of the arena, and holds at
//! the place it names a row or entry of the same id.

use crate::data::arena::{loaded_rows, row_ids};
use crate::data::cell::CellView;
use crate::data::count::{
    lemma_concrete_is_on_no_chain,
    lemma_registered_rows_len,
};
use crate::data::laws::{
    law_loaded_rows, law_registered_keeps, lemma_loaded_levels_fit, lemma_loaded_levels_frame,
    lemma_loaded_tables_frame, lemma_resolved_tables_ids, levels_fit, sheets_fit, store_fits,
};
use crate::data::plan::TablePlan;
use crate::data::store::{
    entry_ids,
    hierarchy_wf,
    keeps,
    levels_name_once,
    loaded_levels,
    loaded_store,
    loaded_table,
    loaded_tables,
    registered,
    registered_rows,
    AbstractRow,
    StoreView,
};
use crate::data::value::RowView;
use crate::data::DataId;
use vstd::prelude::*;

verus! {

/// The ids that table `t` holds: those of its rows, then those of its
/// entries.
pub open spec fn ids_of(rows: Seq<Seq<RowView>>, entries: Seq<Seq<AbstractRow>>, t: int) -> Seq<u32> {
    row_ids(rows[t]) + entry_ids(entries[t])
}

/// Entry `j` of arena `a` leads to what it was made for.
pub open spec fn entry_sound(
    plans: Seq<TablePlan>,
    rows: Seq<Seq<RowView>>,
    entries: Seq<Seq<AbstractRow>>,
    a: int,
    j: int,
) -> bool {
    let e = entries[a][j];
    &&& e.variant < plans.len()
    &&& plans[e.variant as int].parent == Some(a as usize)
    &&& e.slot < ids_of(rows, entries, e.variant as int).len()
    &&& ids_of(rows, entries, e.variant as int)[e.slot as int] == e.id.0
}

/// Every entry of every arena leads to what it was made for.
pub open spec fn entries_sound(
    plans: Seq<TablePlan>,
    rows: Seq<Seq<RowView>>,
    entries: Seq<Seq<AbstractRow>>,
) -> bool {
    forall|a: int, j: int|
        0 <= a < plans.len() && 0 <= j < entries[a].len() ==> #[trigger] entry_sound(
            plans,
            rows,
            entries,
            a,
            j,
        )
}

/// A concrete table holds no entries and an abstract table no rows.
pub open spec fn kinds_apart(
    plans: Seq<TablePlan>,
    rows: Seq<Seq<RowView>>,
    entries: Seq<Seq<AbstractRow>>,
) -> bool {
    forall|t: int|
        0 <= t < plans.len() ==> ((#[trigger] plans[t]).concrete ==> entries[t].len() == 0) && (
        !plans[t].concrete ==> rows[t].len() == 0)
}

/// The store is one of as many tables as there are plans, which keeps rows
/// and entries apart and whose entries lead to what they were made for.
pub open spec fn grounded(plans: Seq<TablePlan>, store: StoreView) -> bool {
    &&& store_fits(store, plans)
    &&& kinds_apart(plans, store.rows, store.entries)
    &&& entries_sound(plans, store.rows, store.entries)
}

proof fn lemma_ids_grow(
    rows: Seq<Seq<RowView>>,
    entries: Seq<Seq<AbstractRow>>,
    p: int,
    entry: AbstractRow,
    v: int,
)
    requires
        0 <= p < entries.len(),
        0 <= v < entries.len(),
    ensures
        ids_of(rows, entries.update(p, entries[p].push(entry)), v) == (if v == p {
            ids_of(rows, entries, v).push(entry.id.0)
        } else {
            ids_of(rows, entries, v)
        }),
{
    let next = entries.update(p, entries[p].push(entry));
    if v == p {
        assert(entry_ids(next[v]) =~= entry_ids(entries[v]).push(entry.id.0));
        assert(ids_of(rows, next, v) =~= ids_of(rows, entries, v).push(entry.id.0));
    }
}

/// No arena holds more entries than a machine can count.
pub open spec fn arenas_fit(entries: Seq<Seq<AbstractRow>>) -> bool {
    forall|t: int| 0 <= t < entries.len() ==> (#[trigger] entries[t]).len() <= usize::MAX
}

/// Arenas that are kept by arenas that fit do fit.
proof fn lemma_kept_arenas_fit(before: Seq<Seq<AbstractRow>>, after: Seq<Seq<AbstractRow>>)
    requires
        keeps(before, after),
        arenas_fit(after),
    ensures
        arenas_fit(before),
{
    assert forall|t: int| 0 <= t < before.len() implies (#[trigger] before[t]).len()
        <= usize::MAX by {
        assert(before[t].len() <= after[t].len());
    }
}

proof fn lemma_registered_sound(
    plans: Seq<TablePlan>,
    rows: Seq<Seq<RowView>>,
    entries: Seq<Seq<AbstractRow>>,
    child: usize,
    id: u32,
    slot: usize,
    fuel: nat,
)
    requires
        registered(plans, entries, child, id, slot, fuel) is Ok,
        arenas_fit(registered(plans, entries, child, id, slot, fuel)->Ok_0),
        hierarchy_wf(plans),
        rows.len() == plans.len(),
        entries.len() == plans.len(),
        plans.len() <= usize::MAX,
        child < plans.len(),
        entries_sound(plans, rows, entries),
        forall|t: int| 0 <= t < plans.len() && !(#[trigger] plans[t]).concrete ==> rows[t].len() == 0,
        slot < ids_of(rows, entries, child as int).len(),
        ids_of(rows, entries, child as int)[slot as int] == id,
    ensures
        entries_sound(plans, rows, registered(plans, entries, child, id, slot, fuel)->Ok_0),
    decreases fuel,
{
    if let Some(p) = plans[child as int].parent {
        if fuel > 0 {
            assert(p < plans.len() && !plans[p as int].concrete);
            let entry = AbstractRow { id: DataId(id), variant: child, slot };
            let next = entries.update(p as int, entries[p as int].push(entry));
            let place = entries[p as int].len();
            let after = registered(plans, entries, child, id, slot, fuel)->Ok_0;
            law_registered_keeps(plans, next, p, id, place as usize, (fuel - 1) as nat);
            assert(next[p as int].len() <= after[p as int].len());
            assert(place < usize::MAX);
            assert forall|a: int, j: int|
                0 <= a < plans.len() && 0 <= j < next[a].len() implies #[trigger] entry_sound(
                plans,
                rows,
                next,
                a,
                j,
            ) by {
                let e = next[a][j];
                if a == p && j == place {
                    assert(e == entry);
                    lemma_ids_grow(rows, entries, p as int, entry, child as int);
                } else {
                    assert(e == entries[a][j]);
                    assert(entry_sound(plans, rows, entries, a, j));
                    lemma_ids_grow(rows, entries, p as int, entry, e.variant as int);
                }
            }
            lemma_ids_grow(rows, entries, p as int, entry, p as int);
            assert(rows[p as int].len() == 0);
            assert(row_ids(rows[p as int]).len() == 0);
            assert(ids_of(rows, entries, p as int).len() == place);
            assert(ids_of(rows, next, p as int)[place as int] == id);
            lemma_registered_sound(plans, rows, next, p, id, place as usize, (fuel - 1) as nat);
        }
    }
}

proof fn lemma_registered_rows_sound(
    plans: Seq<TablePlan>,
    rows: Seq<Seq<RowView>>,
    entries: Seq<Seq<AbstractRow>>,
    t: usize,
    upto: nat,
)
    requires
        registered_rows(plans, entries, t, row_ids(rows[t as int]), upto) is Ok,
        arenas_fit(registered_rows(plans, entries, t, row_ids(rows[t as int]), upto)->Ok_0),
        hierarchy_wf(plans),
        rows.len() == plans.len(),
        entries.len() == plans.len(),
        plans.len() <= usize::MAX,
        t < plans.len(),
        upto <= rows[t as int].len(),
        upto <= usize::MAX,
        entries_sound(plans, rows, entries),
        forall|u: int| 0 <= u < plans.len() && !(#[trigger] plans[u]).concrete ==> rows[u].len() == 0,
    ensures
        registered_rows(plans, entries, t, row_ids(rows[t as int]), upto)->Ok_0.len()
            == plans.len(),
        entries_sound(
            plans,
            rows,
            registered_rows(plans, entries, t, row_ids(rows[t as int]), upto)->Ok_0,
        ),
    decreases upto,
{
    let ids = row_ids(rows[t as int]);
    if upto > 0 {
        let found = registered_rows(plans, entries, t, ids, (upto - 1) as nat)->Ok_0;
        let after = registered_rows(plans, entries, t, ids, upto)->Ok_0;
        lemma_registered_rows_len(plans, entries, t, ids, (upto - 1) as nat, 0);
        law_registered_keeps(plans, found, t, ids[upto - 1], (upto - 1) as usize, plans.len());
        lemma_kept_arenas_fit(found, after);
        lemma_registered_rows_sound(plans, rows, entries, t, (upto - 1) as nat);
        assert(ids_of(rows, found, t as int)[upto - 1] == ids[upto - 1]);
        lemma_registered_sound(
            plans,
            rows,
            found,
            t,
            ids[upto - 1],
            (upto - 1) as usize,
            plans.len(),
        );
    }
}

/// Loading a table that holds no rows yet keeps the store grounded.
proof fn lemma_loaded_table_grounded(
    plans: Seq<TablePlan>,
    sheets: Seq<Seq<Seq<CellView>>>,
    store: StoreView,
    t: usize,
)
    requires
        loaded_table(plans, sheets, store, t) is Ok,
        arenas_fit(loaded_table(plans, sheets, store, t)->Ok_0.entries),
        hierarchy_wf(plans),
        plans.len() <= usize::MAX,
        sheets.len() == plans.len(),
        sheets_fit(sheets),
        t < plans.len(),
        grounded(plans, store),
        store.rows[t as int].len() == 0,
    ensures
        grounded(plans, loaded_table(plans, sheets, store, t)->Ok_0),
{
    if plans[t as int].concrete {
        let loaded = loaded_rows(plans[t as int], sheets[t as int])->Ok_0;
        law_loaded_rows(plans[t as int], sheets[t as int]);
        assert(sheets[t as int].len() <= usize::MAX);
        let rows = store.rows.update(t as int, loaded);
        let after = loaded_table(plans, sheets, store, t)->Ok_0;
        assert(store.entries[t as int].len() == 0);
        assert forall|a: int, j: int|
            0 <= a < plans.len() && 0 <= j < store.entries[a].len() implies #[trigger] entry_sound(
            plans,
            rows,
            store.entries,
            a,
            j,
        ) by {
            assert(entry_sound(plans, store.rows, store.entries, a, j));
            let e = store.entries[a][j];
            if e.variant == t {
                assert(row_ids(store.rows[t as int]).len() == 0);
                assert(entry_ids(store.entries[t as int]).len() == 0);
            } else {
                assert(rows[e.variant as int] == store.rows[e.variant as int]);
            }
        }
        assert forall|u: int| 0 <= u < plans.len() && !(#[trigger] plans[u]).concrete implies rows[u].len()
            == 0 by {
            assert(rows[u] == store.rows[u]);
        }
        assert(rows[t as int] == loaded);
        lemma_registered_rows_sound(plans, rows, store.entries, t, loaded.len());
        assert forall|u: int| 0 <= u < plans.len() implies ((#[trigger] plans[u]).concrete
            ==> after.entries[u].len() == 0) && (!plans[u].concrete ==> after.rows[u].len() == 0) by {
            if plans[u].concrete {
                lemma_registered_rows_len(plans, store.entries, t, row_ids(loaded), loaded.len(), u);
                lemma_concrete_is_on_no_chain(plans, t, u as usize, plans.len());
                assert(loaded.len() * 0 == 0) by (nonlinear_arith);
            } else {
                assert(after.rows[u] == store.rows[u]);
            }
        }
    }
}

proof fn lemma_loaded_tables_grounded(
    plans: Seq<TablePlan>,
    sheets: Seq<Seq<Seq<CellView>>>,
    store: StoreView,
    order: Seq<usize>,
    upto: nat,
)
    requires
        upto <= order.len(),
        loaded_tables(plans, sheets, store, order, upto) is Ok,
        arenas_fit(loaded_tables(plans, sheets, store, order, upto)->Ok_0.entries),
        hierarchy_wf(plans),
        sheets.len() == plans.len(),
        sheets_fit(sheets),
        plans.len() <= usize::MAX,
        grounded(plans, store),
        forall|k: int| 0 <= k < order.len() ==> (#[trigger] order[k]) < plans.len(),
        forall|k: int| 0 <= k < order.len() ==> store.rows[(#[trigger] order[k]) as int].len() == 0,
        forall|k: int, j: int|
            0 <= k < order.len() && 0 <= j < order.len() && #[trigger] order[k]
                == #[trigger] order[j] ==> k == j,
    ensures
        grounded(plans, loaded_tables(plans, sheets, store, order, upto)->Ok_0),
    decreases upto,
{
    if upto > 0 {
        let u = order[upto - 1];
        assert(u < plans.len());
        lemma_loaded_tables_frame(plans, sheets, store, order, 0, (upto - 1) as nat, u as int);
        lemma_loaded_tables_frame(
            plans,
            sheets,
            store,
            order,
            (upto - 1) as nat,
            upto,
            u as int,
        );
        let before = loaded_tables(plans, sheets, store, order, (upto - 1) as nat)->Ok_0;
        let after = loaded_tables(plans, sheets, store, order, upto)->Ok_0;
        lemma_kept_arenas_fit(before.entries, after.entries);
        lemma_loaded_tables_grounded(plans, sheets, store, order, (upto - 1) as nat);
        assert forall|k: int| 0 <= k < upto - 1 implies (#[trigger] order[k]) != u by {
            if order[k] == order[upto - 1] {
                assert(k == upto - 1);
            }
        }
        assert(before.rows[u as int] == store.rows[u as int]);
        assert(store.rows[order[upto - 1] as int].len() == 0);
        lemma_loaded_table_grounded(plans, sheets, before, u);
    }
}

proof fn lemma_loaded_levels_grounded(
    plans: Seq<TablePlan>,
    sheets: Seq<Seq<Seq<CellView>>>,
    levels: Seq<Seq<usize>>,
    upto: nat,
)
    requires
        upto <= levels.len(),
        loaded_levels(plans, sheets, StoreView::empty(plans.len()), levels, upto) is Ok,
        arenas_fit(
            loaded_levels(plans, sheets, StoreView::empty(plans.len()), levels, upto)->Ok_0.entries,
        ),
        hierarchy_wf(plans),
        sheets.len() == plans.len(),
        sheets_fit(sheets),
        plans.len() <= usize::MAX,
        levels_fit(levels, plans),
        levels_name_once(levels),
    ensures
        grounded(
            plans,
            loaded_levels(plans, sheets, StoreView::empty(plans.len()), levels, upto)->Ok_0,
        ),
    decreases upto,
{
    let empty = StoreView::empty(plans.len());
    lemma_loaded_levels_fit(plans, sheets, empty, levels, upto);
    if upto > 0 && plans.len() > 0 {
        lemma_loaded_levels_frame(plans, sheets, empty, levels, (upto - 1) as nat, upto, 0);
        lemma_loaded_levels_fit(plans, sheets, empty, levels, (upto - 1) as nat);
        let before = loaded_levels(plans, sheets, empty, levels, (upto - 1) as nat)->Ok_0;
        let after = loaded_levels(plans, sheets, empty, levels, upto)->Ok_0;
        lemma_kept_arenas_fit(before.entries, after.entries);
        lemma_loaded_levels_grounded(plans, sheets, levels, (upto - 1) as nat);
        let level = levels[upto - 1];
        assert forall|k: int| 0 <= k < level.len() implies (#[trigger] level[k]) < plans.len() by {
            assert(levels[upto - 1][k] < plans.len());
        }
        assert forall|k: int| 0 <= k < level.len() implies before.rows[(
        #[trigger] level[k]) as int].len() == 0 by {
            let u = level[k];
            assert(levels[upto - 1][k] == u);
            assert forall|l: int, j: int|
                0 <= l < upto - 1 && 0 <= j < levels[l].len() implies (#[trigger] levels[l][j])
                != u by {
                if levels[l][j] == levels[upto - 1][k] {
                    assert(l == upto - 1);
                }
            }
            lemma_loaded_levels_frame(
                plans,
                sheets,
                empty,
                levels,
                0,
                (upto - 1) as nat,
                u as int,
            );
            assert(before.rows[u as int] == empty.rows[u as int]);
        }
        assert forall|k: int, j: int|
            0 <= k < level.len() && 0 <= j < level.len() && #[trigger] level[k]
                == #[trigger] level[j] implies k == j by {
            assert(levels[upto - 1][k] == levels[upto - 1][j]);
        }
        lemma_loaded_tables_grounded(plans, sheets, before, level, level.len());
    }
}

/// After loading, every entry of every arena leads to what it was made
/// for: the table it names extends the table of the arena and holds, at the
/// place the entry names, a row or entry of the id of the entry. The levels
/// name no table twice, and no arena holds more than a machine can count.
pub proof fn law_every_entry_leads_to_its_id(
    plans: Seq<TablePlan>,
    sheets: Seq<Seq<Seq<CellView>>>,
    levels: Seq<Seq<usize>>,
    a: int,
    j: int,
)
    requires
        loaded_store(plans, sheets, levels) is Ok,
        arenas_fit(loaded_store(plans, sheets, levels)->Ok_0.entries),
        hierarchy_wf(plans),
        sheets.len() == plans.len(),
        sheets_fit(sheets),
        plans.len() <= usize::MAX,
        levels_fit(levels, plans),
        levels_name_once(levels),
        0 <= a < plans.len(),
        0 <= j < loaded_store(plans, sheets, levels)->Ok_0.entries[a].len(),
    ensures
        ({
            let store = loaded_store(plans, sheets, levels)->Ok_0;
            let e = store.entries[a][j];
            &&& e.variant < plans.len()
            &&& plans[e.variant as int].parent == Some(a as usize)
            &&& e.slot < store.ids(e.variant as int).len()
            &&& store.ids(e.variant as int)[e.slot as int] == e.id.0
        }),
{
    let empty = StoreView::empty(plans.len());
    let loaded = loaded_levels(plans, sheets, empty, levels, levels.len())->Ok_0;
    let store = loaded_store(plans, sheets, levels)->Ok_0;
    lemma_loaded_levels_grounded(plans, sheets, levels, levels.len());
    lemma_resolved_tables_ids(plans, loaded.rows, loaded.maps(), plans.len());
    assert(entry_sound(plans, loaded.rows, loaded.entries, a, j));
    let e = store.entries[a][j];
    assert(row_ids(store.rows[e.variant as int]) == row_ids(loaded.rows[e.variant as int]));
}

} // verus!
