//! After loading, every link is resolved: it holds the place of a row or
//! entry of its id in the arena of its target table.

use crate::data::arena::{loaded_rows, row_ids};
use crate::data::cell::CellView;
use crate::data::laws::{law_loaded_rows, lemma_resolved_tables_ids};
use crate::data::link::{
    resolved_element,
    resolved_elements,
    resolved_scalars,
    resolved_value,
    resolved_values,
};
use crate::data::parse::{
    components_of_items,
    elements_of_items,
    kind_of_cell,
    kind_of_text,
    row_of_cells,
    value_of_cell,
    values_of_row,
};
use crate::data::plan::{Cardinality, ElementPlan, FieldPlan, KindPlan, TablePlan};
use crate::data::store::{
    index_of_ids, loaded_levels, loaded_store, loaded_table, loaded_tables, resolved_rows,
    resolved_tables, StoreView,
};
use crate::data::value::{ElementView, RowView, ScalarView, ValueView};
use crate::data::Link;
use crate::generator::lemma_position_of;
use vstd::prelude::*;

verus! {

/// A scalar is a link only where the plan says so.
pub open spec fn scalar_fits(s: ScalarView, plan: ElementPlan) -> bool {
    s is Link ==> plan is Link
}

/// An element is of the shape of its plan.
pub open spec fn element_fits(e: ElementView, kind: KindPlan) -> bool {
    match (e, kind) {
        (ElementView::One(s), KindPlan::One(plan)) => scalar_fits(s, plan),
        (ElementView::Tuple(v), KindPlan::Tuple(plans)) => v.len() == plans@.len() && forall|
            k: int,
        |
            0 <= k < v.len() ==> scalar_fits(#[trigger] v[k], plans@[k]),
        _ => false,
    }
}

/// A value is of the shape of its plan.
pub open spec fn value_fits(v: ValueView, kind: KindPlan) -> bool {
    match v {
        ValueView::Single(e) => element_fits(e, kind),
        ValueView::Optional(None) => true,
        ValueView::Optional(Some(e)) => element_fits(e, kind),
        ValueView::Multi(es) => forall|k: int|
            0 <= k < es.len() ==> element_fits(#[trigger] es[k], kind),
    }
}

/// The values of a row are of the shapes of the fields.
pub open spec fn values_fit(values: Seq<ValueView>, fields: Seq<FieldPlan>) -> bool {
    values.len() == fields.len() && forall|k: int|
        0 <= k < values.len() ==> value_fits(#[trigger] values[k], fields[k].kind)
}

/// The rows of a table are of the shapes of its fields.
pub open spec fn rows_fit(rows: Seq<RowView>, plan: TablePlan) -> bool {
    forall|k: int| 0 <= k < rows.len() ==> values_fit((#[trigger] rows[k]).values, plan.fields@)
}

/// A link is resolved to the place that the index of its target table gives
/// for its id.
pub open spec fn link_sound(link: Link, maps: Seq<Map<u32, usize>>) -> bool {
    link matches Link::Resolved { id, target } && target.table < maps.len()
        && maps[target.table as int].contains_key(id.0) && maps[target.table as int][id.0]
        == target.slot
}

/// A scalar that is a link is a resolved link.
pub open spec fn scalar_sound(s: ScalarView, maps: Seq<Map<u32, usize>>) -> bool {
    s matches ScalarView::Link(link) ==> link_sound(link, maps)
}

/// Every link of an element is resolved.
pub open spec fn element_sound(e: ElementView, maps: Seq<Map<u32, usize>>) -> bool {
    match e {
        ElementView::One(s) => scalar_sound(s, maps),
        ElementView::Tuple(v) => forall|k: int|
            0 <= k < v.len() ==> scalar_sound(#[trigger] v[k], maps),
    }
}

/// Every link of a value is resolved.
pub open spec fn value_sound(v: ValueView, maps: Seq<Map<u32, usize>>) -> bool {
    match v {
        ValueView::Single(e) => element_sound(e, maps),
        ValueView::Optional(None) => true,
        ValueView::Optional(Some(e)) => element_sound(e, maps),
        ValueView::Multi(es) => forall|k: int|
            0 <= k < es.len() ==> element_sound(#[trigger] es[k], maps),
    }
}

/// Every link of every row is resolved.
pub open spec fn rows_sound(rows: Seq<RowView>, maps: Seq<Map<u32, usize>>) -> bool {
    forall|k: int, i: int|
        0 <= k < rows.len() && 0 <= i < rows[k].values.len() ==> value_sound(
            #[trigger] rows[k].values[i],
            maps,
        )
}

proof fn lemma_components_fit(plans: Seq<ElementPlan>, items: Seq<Seq<char>>)
    requires
        components_of_items(plans, items) is Ok,
    ensures
        components_of_items(plans, items)->Ok_0.len() == plans.len(),
        forall|k: int|
            0 <= k < plans.len() ==> scalar_fits(
                #[trigger] components_of_items(plans, items)->Ok_0[k],
                plans[k],
            ),
    decreases plans.len(),
{
    if plans.len() > 0 {
        lemma_components_fit(plans.drop_last(), items);
        let found = components_of_items(plans.drop_last(), items)->Ok_0;
        let all = components_of_items(plans, items)->Ok_0;
        assert forall|k: int| 0 <= k < plans.len() implies scalar_fits(
            #[trigger] all[k],
            plans[k],
        ) by {
            if k < plans.len() - 1 {
                assert(all[k] == found[k]);
                assert(plans.drop_last()[k] == plans[k]);
            }
        }
    }
}

proof fn lemma_kind_of_text_fits(kind: KindPlan, s: Seq<char>)
    requires
        kind_of_text(kind, s) is Ok,
    ensures
        element_fits(kind_of_text(kind, s)->Ok_0, kind),
{
    if let KindPlan::Tuple(plans) = kind {
        let items = crate::data::parse::counted_tuple_items(s, plans@.len() as usize)->Ok_0;
        lemma_components_fit(plans@, items);
    }
}

proof fn lemma_kind_of_cell_fits(kind: KindPlan, cell: CellView)
    requires
        kind_of_cell(kind, cell) is Ok,
    ensures
        element_fits(kind_of_cell(kind, cell)->Ok_0, kind),
{
    if let KindPlan::Tuple(plans) = kind {
        let s = crate::text::trim_spec(cell.get_string()->0);
        let items = crate::data::parse::counted_tuple_items(s, plans@.len() as usize)->Ok_0;
        lemma_components_fit(plans@, items);
    }
}

proof fn lemma_elements_fit(kind: KindPlan, items: Seq<Seq<char>>)
    requires
        elements_of_items(kind, items) is Ok,
    ensures
        elements_of_items(kind, items)->Ok_0.len() == items.len(),
        forall|k: int|
            0 <= k < items.len() ==> element_fits(
                #[trigger] elements_of_items(kind, items)->Ok_0[k],
                kind,
            ),
    decreases items.len(),
{
    if items.len() > 0 {
        lemma_elements_fit(kind, items.drop_last());
        lemma_kind_of_text_fits(kind, items.last());
        let found = elements_of_items(kind, items.drop_last())->Ok_0;
        let all = elements_of_items(kind, items)->Ok_0;
        assert forall|k: int| 0 <= k < items.len() implies element_fits(#[trigger] all[k], kind) by {
            if k < items.len() - 1 {
                assert(all[k] == found[k]);
            }
        }
    }
}

proof fn lemma_value_of_cell_fits(kind: KindPlan, cardinality: Cardinality, cell: CellView)
    requires
        value_of_cell(kind, cardinality, cell) is Ok,
    ensures
        value_fits(value_of_cell(kind, cardinality, cell)->Ok_0, kind),
{
    match cardinality {
        Cardinality::Single => {
            lemma_kind_of_cell_fits(kind, cell);
        },
        Cardinality::Optional => {
            if cell != CellView::Empty {
                lemma_kind_of_cell_fits(kind, cell);
            }
        },
        Cardinality::Multi => {
            let s = crate::text::trim_spec(cell.get_string()->0);
            let items = crate::data::parse::multi_items(s)->Ok_0;
            lemma_elements_fit(kind, items);
        },
    }
}

/// The values read from a row are of the shapes of the fields.
pub proof fn lemma_values_of_row_fit(fields: Seq<FieldPlan>, row: Seq<CellView>)
    requires
        values_of_row(fields, row) is Ok,
    ensures
        values_fit(values_of_row(fields, row)->Ok_0, fields),
    decreases fields.len(),
{
    if fields.len() > 0 {
        lemma_values_of_row_fit(fields.drop_last(), row);
        let last = fields.last();
        lemma_value_of_cell_fits(last.kind, last.cardinality, row[last.column as int]);
        let found = values_of_row(fields.drop_last(), row)->Ok_0;
        let all = values_of_row(fields, row)->Ok_0;
        assert forall|k: int| 0 <= k < all.len() implies value_fits(
            #[trigger] all[k],
            fields[k].kind,
        ) by {
            if k < fields.len() - 1 {
                assert(all[k] == found[k]);
                assert(fields.drop_last()[k] == fields[k]);
            }
        }
    }
}

/// The rows that a sheet loads as are of the shapes of the fields.
pub proof fn lemma_loaded_rows_fit(plan: TablePlan, sheet: Seq<Seq<CellView>>)
    requires
        loaded_rows(plan, sheet) is Ok,
    ensures
        rows_fit(loaded_rows(plan, sheet)->Ok_0, plan),
{
    law_loaded_rows(plan, sheet);
    let rows = loaded_rows(plan, sheet)->Ok_0;
    assert forall|k: int| 0 <= k < rows.len() implies values_fit(
        (#[trigger] rows[k]).values,
        plan.fields@,
    ) by {
        assert(row_of_cells(plan, sheet[k]) is Ok);
        lemma_values_of_row_fit(plan.fields@, sheet[k]);
    }
}

proof fn lemma_resolved_scalars_sound(
    v: Seq<ScalarView>,
    plans: Seq<ElementPlan>,
    maps: Seq<Map<u32, usize>>,
)
    requires
        resolved_scalars(v, plans, maps) is Ok,
        v.len() <= plans.len(),
        forall|k: int| 0 <= k < v.len() ==> scalar_fits(#[trigger] v[k], plans[k]),
    ensures
        resolved_scalars(v, plans, maps)->Ok_0.len() == v.len(),
        forall|k: int|
            0 <= k < v.len() ==> scalar_sound(
                #[trigger] resolved_scalars(v, plans, maps)->Ok_0[k],
                maps,
            ),
    decreases v.len(),
{
    if v.len() > 0 {
        let front = v.drop_last();
        assert forall|k: int| 0 <= k < front.len() implies scalar_fits(
            #[trigger] front[k],
            plans[k],
        ) by {
            assert(front[k] == v[k]);
        }
        lemma_resolved_scalars_sound(front, plans, maps);
        let done = resolved_scalars(front, plans, maps)->Ok_0;
        let all = resolved_scalars(v, plans, maps)->Ok_0;
        assert(scalar_fits(v[v.len() - 1], plans[v.len() - 1]));
        assert forall|k: int| 0 <= k < v.len() implies scalar_sound(#[trigger] all[k], maps) by {
            if k < v.len() - 1 {
                assert(all[k] == done[k]);
            }
        }
    }
}

proof fn lemma_resolved_element_sound(e: ElementView, kind: KindPlan, maps: Seq<Map<u32, usize>>)
    requires
        resolved_element(e, kind, maps) is Ok,
        element_fits(e, kind),
    ensures
        element_sound(resolved_element(e, kind, maps)->Ok_0, maps),
{
    match (e, kind) {
        (ElementView::Tuple(v), KindPlan::Tuple(plans)) => {
            lemma_resolved_scalars_sound(v, plans@, maps);
        },
        _ => {},
    }
}

proof fn lemma_resolved_elements_sound(
    es: Seq<ElementView>,
    kind: KindPlan,
    maps: Seq<Map<u32, usize>>,
)
    requires
        resolved_elements(es, kind, maps) is Ok,
        forall|k: int| 0 <= k < es.len() ==> element_fits(#[trigger] es[k], kind),
    ensures
        resolved_elements(es, kind, maps)->Ok_0.len() == es.len(),
        forall|k: int|
            0 <= k < es.len() ==> element_sound(
                #[trigger] resolved_elements(es, kind, maps)->Ok_0[k],
                maps,
            ),
    decreases es.len(),
{
    if es.len() > 0 {
        let front = es.drop_last();
        assert forall|k: int| 0 <= k < front.len() implies element_fits(#[trigger] front[k], kind) by {
            assert(front[k] == es[k]);
        }
        lemma_resolved_elements_sound(front, kind, maps);
        assert(element_fits(es[es.len() - 1], kind));
        lemma_resolved_element_sound(es.last(), kind, maps);
        let done = resolved_elements(front, kind, maps)->Ok_0;
        let all = resolved_elements(es, kind, maps)->Ok_0;
        assert forall|k: int| 0 <= k < es.len() implies element_sound(#[trigger] all[k], maps) by {
            if k < es.len() - 1 {
                assert(all[k] == done[k]);
            }
        }
    }
}

proof fn lemma_resolved_value_sound(v: ValueView, kind: KindPlan, maps: Seq<Map<u32, usize>>)
    requires
        resolved_value(v, kind, maps) is Ok,
        value_fits(v, kind),
    ensures
        value_sound(resolved_value(v, kind, maps)->Ok_0, maps),
{
    match v {
        ValueView::Single(e) => {
            lemma_resolved_element_sound(e, kind, maps);
        },
        ValueView::Optional(None) => {},
        ValueView::Optional(Some(e)) => {
            lemma_resolved_element_sound(e, kind, maps);
        },
        ValueView::Multi(es) => {
            lemma_resolved_elements_sound(es, kind, maps);
        },
    }
}

proof fn lemma_resolved_values_sound(
    values: Seq<ValueView>,
    fields: Seq<FieldPlan>,
    maps: Seq<Map<u32, usize>>,
)
    requires
        resolved_values(values, fields, maps) is Ok,
        values.len() <= fields.len(),
        forall|k: int| 0 <= k < values.len() ==> value_fits(#[trigger] values[k], fields[k].kind),
    ensures
        resolved_values(values, fields, maps)->Ok_0.len() == values.len(),
        forall|k: int|
            0 <= k < values.len() ==> value_sound(
                #[trigger] resolved_values(values, fields, maps)->Ok_0[k],
                maps,
            ),
    decreases values.len(),
{
    if values.len() > 0 {
        let front = values.drop_last();
        assert forall|k: int| 0 <= k < front.len() implies value_fits(
            #[trigger] front[k],
            fields[k].kind,
        ) by {
            assert(front[k] == values[k]);
        }
        lemma_resolved_values_sound(front, fields, maps);
        assert(value_fits(values[values.len() - 1], fields[values.len() - 1].kind));
        lemma_resolved_value_sound(values.last(), fields[values.len() - 1].kind, maps);
        let done = resolved_values(front, fields, maps)->Ok_0;
        let all = resolved_values(values, fields, maps)->Ok_0;
        assert forall|k: int| 0 <= k < values.len() implies value_sound(#[trigger] all[k], maps) by {
            if k < values.len() - 1 {
                assert(all[k] == done[k]);
            }
        }
    }
}

/// Rows of the shapes of the fields have, once their links are resolved, no
/// link that is not resolved.
pub proof fn lemma_resolved_rows_sound(
    plan: TablePlan,
    rows: Seq<RowView>,
    maps: Seq<Map<u32, usize>>,
    upto: nat,
)
    requires
        upto <= rows.len(),
        resolved_rows(plan, rows, maps, upto) is Ok,
        rows_fit(rows, plan),
    ensures
        resolved_rows(plan, rows, maps, upto)->Ok_0.len() == upto,
        rows_sound(resolved_rows(plan, rows, maps, upto)->Ok_0, maps),
    decreases upto,
{
    if upto > 0 {
        lemma_resolved_rows_sound(plan, rows, maps, (upto - 1) as nat);
        let done = resolved_rows(plan, rows, maps, (upto - 1) as nat)->Ok_0;
        let all = resolved_rows(plan, rows, maps, upto)->Ok_0;
        let row = rows[upto - 1];
        assert(values_fit(row.values, plan.fields@));
        lemma_resolved_values_sound(row.values, plan.fields@, maps);
        assert forall|k: int, i: int|
            0 <= k < all.len() && 0 <= i < all[k].values.len() implies value_sound(
            #[trigger] all[k].values[i],
            maps,
        ) by {
            if k < upto - 1 {
                assert(all[k] == done[k]);
                assert(value_sound(done[k].values[i], maps));
            }
        }
    }
}

/// The rows of every table of the store are of the shapes of its fields.
pub open spec fn store_rows_fit(store: StoreView, plans: Seq<TablePlan>) -> bool {
    forall|t: int| 0 <= t < plans.len() ==> rows_fit(#[trigger] store.rows[t], plans[t])
}

proof fn lemma_loaded_tables_rows_fit(
    plans: Seq<TablePlan>,
    sheets: Seq<Seq<Seq<CellView>>>,
    store: StoreView,
    order: Seq<usize>,
    upto: nat,
)
    requires
        upto <= order.len(),
        loaded_tables(plans, sheets, store, order, upto) is Ok,
        store.rows.len() == plans.len(),
        store_rows_fit(store, plans),
        forall|k: int| 0 <= k < order.len() ==> (#[trigger] order[k]) < plans.len(),
    ensures
        loaded_tables(plans, sheets, store, order, upto)->Ok_0.rows.len() == plans.len(),
        store_rows_fit(loaded_tables(plans, sheets, store, order, upto)->Ok_0, plans),
    decreases upto,
{
    if upto > 0 {
        lemma_loaded_tables_rows_fit(plans, sheets, store, order, (upto - 1) as nat);
        let before = loaded_tables(plans, sheets, store, order, (upto - 1) as nat)->Ok_0;
        let u = order[upto - 1];
        assert(u < plans.len());
        let after = loaded_table(plans, sheets, before, u)->Ok_0;
        if plans[u as int].concrete {
            lemma_loaded_rows_fit(plans[u as int], sheets[u as int]);
        }
        assert forall|t: int| 0 <= t < plans.len() implies rows_fit(
            #[trigger] after.rows[t],
            plans[t],
        ) by {
            if t != u || !plans[u as int].concrete {
                assert(after.rows[t] == before.rows[t]);
            }
        }
    }
}

proof fn lemma_loaded_levels_rows_fit(
    plans: Seq<TablePlan>,
    sheets: Seq<Seq<Seq<CellView>>>,
    store: StoreView,
    levels: Seq<Seq<usize>>,
    upto: nat,
)
    requires
        upto <= levels.len(),
        loaded_levels(plans, sheets, store, levels, upto) is Ok,
        store.rows.len() == plans.len(),
        store_rows_fit(store, plans),
        crate::data::laws::levels_fit(levels, plans),
    ensures
        loaded_levels(plans, sheets, store, levels, upto)->Ok_0.rows.len() == plans.len(),
        store_rows_fit(loaded_levels(plans, sheets, store, levels, upto)->Ok_0, plans),
    decreases upto,
{
    if upto > 0 {
        lemma_loaded_levels_rows_fit(plans, sheets, store, levels, (upto - 1) as nat);
        let before = loaded_levels(plans, sheets, store, levels, (upto - 1) as nat)->Ok_0;
        let level = levels[upto - 1];
        assert forall|k: int| 0 <= k < level.len() implies (#[trigger] level[k]) < plans.len() by {
            assert(levels[upto - 1][k] < plans.len());
        }
        lemma_loaded_tables_rows_fit(plans, sheets, before, level, level.len());
    }
}

proof fn lemma_resolved_tables_sound(
    plans: Seq<TablePlan>,
    rows: Seq<Seq<RowView>>,
    maps: Seq<Map<u32, usize>>,
    upto: nat,
)
    requires
        upto <= rows.len(),
        upto <= plans.len(),
        resolved_tables(plans, rows, maps, upto) is Ok,
        forall|t: int| 0 <= t < upto ==> rows_fit(#[trigger] rows[t], plans[t]),
    ensures
        resolved_tables(plans, rows, maps, upto)->Ok_0.len() == upto,
        forall|t: int|
            0 <= t < upto ==> rows_sound(
                #[trigger] resolved_tables(plans, rows, maps, upto)->Ok_0[t],
                maps,
            ),
    decreases upto,
{
    if upto > 0 {
        lemma_resolved_tables_sound(plans, rows, maps, (upto - 1) as nat);
        let done = resolved_tables(plans, rows, maps, (upto - 1) as nat)->Ok_0;
        let all = resolved_tables(plans, rows, maps, upto)->Ok_0;
        assert(rows_fit(rows[upto - 1], plans[upto - 1]));
        lemma_resolved_rows_sound(plans[upto - 1], rows[upto - 1], maps, rows[upto - 1].len());
        assert forall|t: int| 0 <= t < upto implies rows_sound(#[trigger] all[t], maps) by {
            if t < upto - 1 {
                assert(all[t] == done[t]);
            }
        }
    }
}

/// A successful load leaves no link unresolved: every link of every row of
/// the store holds the place at which the arena of its target table holds a
/// row or entry of the id of the link.
pub proof fn law_every_link_is_resolved(
    plans: Seq<TablePlan>,
    sheets: Seq<Seq<Seq<CellView>>>,
    levels: Seq<Seq<usize>>,
    t: int,
)
    requires
        loaded_store(plans, sheets, levels) is Ok,
        crate::data::laws::levels_fit(levels, plans),
        0 <= t < plans.len(),
    ensures
        rows_sound(
            loaded_store(plans, sheets, levels)->Ok_0.rows[t],
            loaded_store(plans, sheets, levels)->Ok_0.maps(),
        ),
{
    let empty = StoreView::empty(plans.len());
    assert forall|u: int| 0 <= u < plans.len() implies rows_fit(
        #[trigger] empty.rows[u],
        plans[u],
    ) by {}
    lemma_loaded_levels_rows_fit(plans, sheets, empty, levels, levels.len());
    let loaded = loaded_levels(plans, sheets, empty, levels, levels.len())->Ok_0;
    let store = loaded_store(plans, sheets, levels)->Ok_0;
    lemma_resolved_tables_sound(plans, loaded.rows, loaded.maps(), plans.len());
    lemma_resolved_tables_ids(plans, loaded.rows, loaded.maps(), plans.len());
    assert(store.maps() =~= loaded.maps()) by {
        assert forall|u: int| 0 <= u < plans.len() implies store.maps()[u] == loaded.maps()[u] by {
            assert(row_ids(store.rows[u]) == row_ids(loaded.rows[u]));
            assert(store.ids(u) == loaded.ids(u));
        }
    }
}

/// The place of a resolved link holds the id of the link: the index of a
/// table gives, for an id, a place at which the table holds that id.
pub proof fn law_sound_link_leads_to_its_id(store: StoreView, link: Link)
    requires
        link_sound(link, store.maps()),
        forall|t: int| 0 <= t < store.rows.len() ==> (#[trigger] store.ids(t)).len() <= usize::MAX,
    ensures
        link matches Link::Resolved { id, target } && target.table < store.rows.len()
            && target.slot < store.ids(target.table as int).len() && store.ids(
            target.table as int,
        )[target.slot as int] == id.0,
{
    if let Link::Resolved { id, target } = link {
        let ids = store.ids(target.table as int);
        assert(store.maps().len() == store.rows.len());
        assert(store.maps()[target.table as int] == index_of_ids(ids));
        assert(ids.len() <= usize::MAX);
        assert(ids.contains(id.0));
        lemma_position_of(ids, id.0);
    }
}

} // verus!
