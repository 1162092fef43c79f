//! How many entries an abstract arena holds after loading: as many as the
//! concrete tables below it hold rows.

use crate::data::arena::{loaded_rows, row_ids};
use crate::data::cell::CellView;
use crate::data::laws::{
    lemma_loaded_levels_fit,
    lemma_loaded_levels_frame,
    lemma_loaded_tables_frame,
    lemma_resolved_tables_ids,
    levels_fit,
    sheets_fit,
    store_fits,
};
use crate::data::plan::TablePlan;
use crate::data::store::{
    hierarchy_wf, levels_name_once, loaded_levels, loaded_store, loaded_table, loaded_tables, registered,
    registered_rows, AbstractRow, StoreView,
};
use crate::data::value::RowView;
use crate::data::DataId;
use vstd::prelude::*;

verus! {

/// How often table `a` is met on the way up from table `child`, in `fuel`
/// steps at most.
pub open spec fn on_chain(plans: Seq<TablePlan>, child: usize, a: usize, fuel: nat) -> nat
    decreases fuel,
{
    match plans[child as int].parent {
        None => 0,
        Some(p) => if fuel == 0 {
            0
        } else {
            (if p == a {
                1nat
            } else {
                0nat
            }) + on_chain(plans, p, a, (fuel - 1) as nat)
        },
    }
}

/// How many rows the first `upto` tables that stand below table `a` hold.
pub open spec fn rows_below(plans: Seq<TablePlan>, rows: Seq<Seq<RowView>>, a: usize, upto: nat) -> nat
    decreases upto,
{
    if upto == 0 {
        0
    } else {
        rows_below(plans, rows, a, (upto - 1) as nat) + rows[upto - 1].len() * on_chain(
            plans,
            (upto - 1) as usize,
            a,
            plans.len(),
        )
    }
}

/// A concrete table is met on no way up: only abstract tables are extended.
pub proof fn lemma_concrete_is_on_no_chain(plans: Seq<TablePlan>, child: usize, c: usize, fuel: nat)
    requires
        hierarchy_wf(plans),
        child < plans.len(),
        c < plans.len(),
        plans[c as int].concrete,
    ensures
        on_chain(plans, child, c, fuel) == 0,
    decreases fuel,
{
    if let Some(p) = plans[child as int].parent {
        if fuel > 0 {
            assert(p < plans.len() && !plans[p as int].concrete);
            lemma_concrete_is_on_no_chain(plans, p, c, (fuel - 1) as nat);
        }
    }
}

/// Every arena holds as many entries as the tables below it hold rows.
pub open spec fn balanced(plans: Seq<TablePlan>, store: StoreView) -> bool {
    forall|a: int|
        0 <= a < plans.len() ==> (#[trigger] store.entries[a]).len() == rows_below(
            plans,
            store.rows,
            a as usize,
            plans.len(),
        )
}

pub proof fn lemma_registered_len(
    plans: Seq<TablePlan>,
    entries: Seq<Seq<AbstractRow>>,
    child: usize,
    id: u32,
    slot: usize,
    fuel: nat,
    a: int,
)
    requires
        registered(plans, entries, child, id, slot, fuel) is Ok,
        hierarchy_wf(plans),
        entries.len() == plans.len(),
        plans.len() <= usize::MAX,
        child < plans.len(),
        0 <= a < plans.len(),
    ensures
        registered(plans, entries, child, id, slot, fuel)->Ok_0.len() == plans.len(),
        registered(plans, entries, child, id, slot, fuel)->Ok_0[a].len() == entries[a].len()
            + on_chain(plans, child, a as usize, fuel),
    decreases fuel,
{
    if let Some(p) = plans[child as int].parent {
        if fuel > 0 {
            let entry = AbstractRow { id: DataId(id), variant: child, slot };
            let next = entries.update(p as int, entries[p as int].push(entry));
            assert(p < plans.len());
            assert(next[a].len() == entries[a].len() + (if p == a as usize {
                1nat
            } else {
                0nat
            }));
            lemma_registered_len(
                plans,
                next,
                p,
                id,
                entries[p as int].len() as usize,
                (fuel - 1) as nat,
                a,
            );
        }
    }
}

pub proof fn lemma_registered_rows_len(
    plans: Seq<TablePlan>,
    entries: Seq<Seq<AbstractRow>>,
    t: usize,
    ids: Seq<u32>,
    upto: nat,
    a: int,
)
    requires
        registered_rows(plans, entries, t, ids, upto) is Ok,
        hierarchy_wf(plans),
        entries.len() == plans.len(),
        plans.len() <= usize::MAX,
        t < plans.len(),
        0 <= a < plans.len(),
    ensures
        registered_rows(plans, entries, t, ids, upto)->Ok_0.len() == plans.len(),
        registered_rows(plans, entries, t, ids, upto)->Ok_0[a].len() == entries[a].len() + upto
            * on_chain(plans, t, a as usize, plans.len()),
    decreases upto,
{
    let c = on_chain(plans, t, a as usize, plans.len());
    if upto > 0 {
        lemma_registered_rows_len(plans, entries, t, ids, (upto - 1) as nat, a);
        let found = registered_rows(plans, entries, t, ids, (upto - 1) as nat)->Ok_0;
        lemma_registered_len(plans, found, t, ids[upto - 1], (upto - 1) as usize, plans.len(), a);
        assert((upto - 1) * c + c == upto * c) by (nonlinear_arith);
    } else {
        assert(0 * c == 0) by (nonlinear_arith);
    }
}

proof fn lemma_rows_below_update(
    plans: Seq<TablePlan>,
    rows: Seq<Seq<RowView>>,
    t: int,
    loaded: Seq<RowView>,
    a: usize,
    upto: nat,
)
    requires
        0 <= t < rows.len(),
        rows[t].len() == 0,
        upto <= rows.len(),
    ensures
        rows_below(plans, rows.update(t, loaded), a, upto) == rows_below(plans, rows, a, upto) + (
        if t < upto {
            loaded.len() * on_chain(plans, t as usize, a, plans.len())
        } else {
            0
        }),
    decreases upto,
{
    if upto > 0 {
        lemma_rows_below_update(plans, rows, t, loaded, a, (upto - 1) as nat);
        let c = on_chain(plans, (upto - 1) as usize, a, plans.len());
        if t == upto - 1 {
            assert(rows.update(t, loaded)[upto - 1] == loaded);
            assert(rows[upto - 1].len() * c == 0) by (nonlinear_arith)
                requires
                    rows[upto - 1].len() == 0,
            ;
        } else {
            assert(rows.update(t, loaded)[upto - 1] == rows[upto - 1]);
        }
    }
}

/// Loading a table that holds no rows yet keeps the arenas in balance.
proof fn lemma_loaded_table_balanced(
    plans: Seq<TablePlan>,
    sheets: Seq<Seq<Seq<CellView>>>,
    store: StoreView,
    t: usize,
)
    requires
        loaded_table(plans, sheets, store, t) is Ok,
        hierarchy_wf(plans),
        store_fits(store, plans),
        t < plans.len(),
        plans.len() <= usize::MAX,
        balanced(plans, store),
        store.rows[t as int].len() == 0,
    ensures
        balanced(plans, loaded_table(plans, sheets, store, t)->Ok_0),
{
    if plans[t as int].concrete {
        let rows = loaded_rows(plans[t as int], sheets[t as int])->Ok_0;
        let after = loaded_table(plans, sheets, store, t)->Ok_0;
        assert forall|a: int| 0 <= a < plans.len() implies (#[trigger] after.entries[a]).len()
            == rows_below(plans, after.rows, a as usize, plans.len()) by {
            lemma_registered_rows_len(plans, store.entries, t, row_ids(rows), rows.len(), a);
            lemma_rows_below_update(plans, store.rows, t as int, rows, a as usize, plans.len());
            assert(store.entries[a].len() == rows_below(
                plans,
                store.rows,
                a as usize,
                plans.len(),
            ));
        }
    }
}

proof fn lemma_loaded_tables_balanced(
    plans: Seq<TablePlan>,
    sheets: Seq<Seq<Seq<CellView>>>,
    store: StoreView,
    order: Seq<usize>,
    upto: nat,
)
    requires
        upto <= order.len(),
        loaded_tables(plans, sheets, store, order, upto) is Ok,
        hierarchy_wf(plans),
        store_fits(store, plans),
        sheets.len() == plans.len(),
        sheets_fit(sheets),
        plans.len() <= usize::MAX,
        balanced(plans, store),
        forall|k: int| 0 <= k < order.len() ==> (#[trigger] order[k]) < plans.len(),
        forall|k: int| 0 <= k < order.len() ==> store.rows[(#[trigger] order[k]) as int].len() == 0,
        forall|k: int, j: int|
            0 <= k < order.len() && 0 <= j < order.len() && #[trigger] order[k]
                == #[trigger] order[j] ==> k == j,
    ensures
        balanced(plans, loaded_tables(plans, sheets, store, order, upto)->Ok_0),
    decreases upto,
{
    if upto > 0 {
        lemma_loaded_tables_balanced(plans, sheets, store, order, (upto - 1) as nat);
        let u = order[upto - 1];
        assert(u < plans.len());
        lemma_loaded_tables_frame(plans, sheets, store, order, 0, (upto - 1) as nat, u as int);
        let before = loaded_tables(plans, sheets, store, order, (upto - 1) as nat)->Ok_0;
        assert forall|k: int| 0 <= k < upto - 1 implies (#[trigger] order[k]) != u by {
            if order[k] == order[upto - 1] {
                assert(k == upto - 1);
            }
        }
        assert(before.rows[u as int] == store.rows[u as int]);
        assert(store.rows[order[upto - 1] as int].len() == 0);
        lemma_loaded_table_balanced(plans, sheets, before, u);
    }
}

proof fn lemma_loaded_levels_balanced(
    plans: Seq<TablePlan>,
    sheets: Seq<Seq<Seq<CellView>>>,
    levels: Seq<Seq<usize>>,
    upto: nat,
)
    requires
        upto <= levels.len(),
        loaded_levels(plans, sheets, StoreView::empty(plans.len()), levels, upto) is Ok,
        hierarchy_wf(plans),
        sheets.len() == plans.len(),
        sheets_fit(sheets),
        plans.len() <= usize::MAX,
        levels_fit(levels, plans),
        levels_name_once(levels),
    ensures
        balanced(
            plans,
            loaded_levels(plans, sheets, StoreView::empty(plans.len()), levels, upto)->Ok_0,
        ),
    decreases upto,
{
    let empty = StoreView::empty(plans.len());
    if upto > 0 {
        lemma_loaded_levels_balanced(plans, sheets, levels, (upto - 1) as nat);
        lemma_loaded_levels_fit(plans, sheets, empty, levels, (upto - 1) as nat);
        let before = loaded_levels(plans, sheets, empty, levels, (upto - 1) as nat)->Ok_0;
        let level = levels[upto - 1];
        assert forall|k: int| 0 <= k < level.len() implies (#[trigger] level[k]) < plans.len() by {
            assert(levels[upto - 1][k] < plans.len());
        }
        assert forall|k: int| 0 <= k < level.len() implies before.rows[(
        #[trigger] level[k]) as int].len() == 0 by {
            let u = level[k];
            assert(levels[upto - 1][k] == u);
            assert forall|l: int, j: int|
                0 <= l < upto - 1 && 0 <= j < levels[l].len() implies (#[trigger] levels[l][j])
                != u by {
                if levels[l][j] == levels[upto - 1][k] {
                    assert(l == upto - 1);
                }
            }
            lemma_loaded_levels_frame(
                plans,
                sheets,
                empty,
                levels,
                0,
                (upto - 1) as nat,
                u as int,
            );
            assert(before.rows[u as int] == empty.rows[u as int]);
        }
        assert forall|k: int, j: int|
            0 <= k < level.len() && 0 <= j < level.len() && #[trigger] level[k]
                == #[trigger] level[j] implies k == j by {
            assert(levels[upto - 1][k] == levels[upto - 1][j]);
        }
        lemma_loaded_tables_balanced(plans, sheets, before, level, level.len());
    } else {
        assert forall|a: int| 0 <= a < plans.len() implies (#[trigger] empty.entries[a]).len()
            == rows_below(plans, empty.rows, a as usize, plans.len()) by {
            lemma_rows_below_empty(plans, empty.rows, a as usize, plans.len());
        }
    }
}

proof fn lemma_rows_below_empty(
    plans: Seq<TablePlan>,
    rows: Seq<Seq<RowView>>,
    a: usize,
    upto: nat,
)
    requires
        upto <= rows.len(),
        forall|t: int| 0 <= t < rows.len() ==> (#[trigger] rows[t]).len() == 0,
    ensures
        rows_below(plans, rows, a, upto) == 0,
    decreases upto,
{
    if upto > 0 {
        lemma_rows_below_empty(plans, rows, a, (upto - 1) as nat);
        let c = on_chain(plans, (upto - 1) as usize, a, plans.len());
        assert(rows[upto - 1].len() * c == 0) by (nonlinear_arith)
            requires
                rows[upto - 1].len() == 0,
        ;
    }
}

proof fn lemma_rows_below_same_lengths(
    plans: Seq<TablePlan>,
    rows: Seq<Seq<RowView>>,
    other: Seq<Seq<RowView>>,
    a: usize,
    upto: nat,
)
    requires
        upto <= rows.len(),
        rows.len() == other.len(),
        forall|t: int| 0 <= t < rows.len() ==> (#[trigger] rows[t]).len() == other[t].len(),
    ensures
        rows_below(plans, rows, a, upto) == rows_below(plans, other, a, upto),
    decreases upto,
{
    if upto > 0 {
        lemma_rows_below_same_lengths(plans, rows, other, a, (upto - 1) as nat);
        assert(rows[upto - 1].len() == other[upto - 1].len());
    }
}

/// After loading, the arena of every table holds exactly as many entries as
/// the tables that stand below it hold rows: one entry for each row of
/// every concrete table below it, and no other. The levels name no table
/// twice.
pub proof fn law_arenas_hold_one_entry_for_each_row_below(
    plans: Seq<TablePlan>,
    sheets: Seq<Seq<Seq<CellView>>>,
    levels: Seq<Seq<usize>>,
    a: int,
)
    requires
        loaded_store(plans, sheets, levels) is Ok,
        hierarchy_wf(plans),
        sheets.len() == plans.len(),
        sheets_fit(sheets),
        plans.len() <= usize::MAX,
        levels_fit(levels, plans),
        levels_name_once(levels),
        0 <= a < plans.len(),
    ensures
        loaded_store(plans, sheets, levels)->Ok_0.entries[a].len() == rows_below(
            plans,
            loaded_store(plans, sheets, levels)->Ok_0.rows,
            a as usize,
            plans.len(),
        ),
{
    let empty = StoreView::empty(plans.len());
    lemma_loaded_levels_balanced(plans, sheets, levels, levels.len());
    lemma_loaded_levels_fit(plans, sheets, empty, levels, levels.len());
    let loaded = loaded_levels(plans, sheets, empty, levels, levels.len())->Ok_0;
    let store = loaded_store(plans, sheets, levels)->Ok_0;
    lemma_resolved_tables_ids(plans, loaded.rows, loaded.maps(), plans.len());
    assert forall|t: int| 0 <= t < loaded.rows.len() implies (#[trigger] loaded.rows[t]).len()
        == store.rows[t].len() by {
        assert(row_ids(store.rows[t]) == row_ids(loaded.rows[t]));
        assert(row_ids(store.rows[t]).len() == store.rows[t].len());
        assert(row_ids(loaded.rows[t]).len() == loaded.rows[t].len());
    }
    lemma_rows_below_same_lengths(plans, loaded.rows, store.rows, a as usize, plans.len());
    assert(loaded.entries[a].len() == rows_below(plans, loaded.rows, a as usize, plans.len()));
}

} // verus!
