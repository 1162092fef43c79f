//! What holds of loading, stated over the definitions that the contracts of
//! the loader use.

use crate::data::arena::{loaded_rows, row_ids, row_number};
use crate::data::cell::CellView;
use crate::data::constraint::{broken, first_broken, taken, value_text, violation};
use crate::data::error::{ConstraintErrorView, ErrorView, LinkErrorView, ParseErrorView};
use crate::data::link::resolved_link;
use crate::data::parse::{id_of_row, row_of_cells};
use crate::data::plan::TablePlan;
use crate::data::store::{
    entered,
    entry_ids,
    hierarchy_wf,
    keeps,
    lemma_keeps_twice,
    index_matches,
    loaded_levels,
    loaded_store,
    loaded_table,
    loaded_tables,
    registered,
    registered_rows,
    resolved_tables,
    AbstractRow,
    StoreView,
};
use crate::data::value::RowView;
use crate::data::{DataId, Link, RowRef};
use crate::generator::table::Constraint;
use crate::generator::{lemma_position_of, position_of};
use vstd::prelude::*;

verus! {

/// Of a sheet that loads: there is one row for each data row of the sheet,
/// in order, which is what the cells of that data row hold; no two rows
/// have one id; and the first rows of the sheet load as the first rows.
pub proof fn law_loaded_rows(plan: TablePlan, sheet: Seq<Seq<CellView>>)
    requires
        loaded_rows(plan, sheet) is Ok,
    ensures
        loaded_rows(plan, sheet)->Ok_0.len() == sheet.len(),
        forall|k: int|
            0 <= k < sheet.len() ==> row_of_cells(plan, #[trigger] sheet[k]) == Ok::<
                RowView,
                (Seq<char>, ParseErrorView),
            >(loaded_rows(plan, sheet)->Ok_0[k]),
        row_ids(loaded_rows(plan, sheet)->Ok_0).no_duplicates(),
        forall|k: int|
            0 <= k <= sheet.len() ==> loaded_rows(plan, #[trigger] sheet.take(k)) == Ok::<
                Seq<RowView>,
                ErrorView,
            >(loaded_rows(plan, sheet)->Ok_0.take(k)),
    decreases sheet.len(),
{
    let rows = loaded_rows(plan, sheet)->Ok_0;
    if sheet.len() > 0 {
        let front = sheet.drop_last();
        law_loaded_rows(plan, front);
        let earlier = loaded_rows(plan, front)->Ok_0;
        let row = row_of_cells(plan, sheet.last())->Ok_0;
        assert(rows == earlier.push(row));
        assert forall|k: int| 0 <= k < sheet.len() implies row_of_cells(plan, #[trigger] sheet[k])
            == Ok::<RowView, (Seq<char>, ParseErrorView)>(rows[k]) by {
            if k < front.len() {
                assert(front[k] == sheet[k]);
            }
        }
        assert(row_ids(rows) =~= row_ids(earlier).push(row.id));
        assert forall|k: int| 0 <= k <= sheet.len() implies loaded_rows(
            plan,
            #[trigger] sheet.take(k),
        ) == Ok::<Seq<RowView>, ErrorView>(rows.take(k)) by {
            if k < sheet.len() {
                assert(sheet.take(k) == front.take(k));
                assert(rows.take(k) == earlier.take(k));
            } else {
                assert(sheet.take(k) == sheet);
                assert(rows.take(k) == rows);
            }
        }
    } else {
        assert forall|k: int| 0 <= k <= sheet.len() implies loaded_rows(
            plan,
            #[trigger] sheet.take(k),
        ) == Ok::<Seq<RowView>, ErrorView>(rows.take(k)) by {
            assert(sheet.take(k) == sheet);
            assert(rows.take(k) == rows);
        }
    }
}

/// A sheet whose data rows have the ids 0, 1, 2 and so on loads so that the
/// row of id `i` stands at position `i` and is what the cells of data row
/// `i` hold, for every `i` below the number of rows; the number of rows
/// itself is the id of no row.
pub proof fn law_rows_found_by_id(plan: TablePlan, sheet: Seq<Seq<CellView>>)
    requires
        loaded_rows(plan, sheet) is Ok,
        sheet.len() <= u32::MAX,
        forall|k: int|
            0 <= k < sheet.len() ==> id_of_row(plan.fields_count, #[trigger] sheet[k]) == Ok::<
                u32,
                (Seq<char>, ParseErrorView),
            >(k as u32),
    ensures
        forall|i: int|
            0 <= i < sheet.len() ==> position_of(
                row_ids(loaded_rows(plan, sheet)->Ok_0),
                i as u32,
            ) == Some(i) && row_of_cells(plan, #[trigger] sheet[i]) == Ok::<
                RowView,
                (Seq<char>, ParseErrorView),
            >(loaded_rows(plan, sheet)->Ok_0[i]),
        position_of(row_ids(loaded_rows(plan, sheet)->Ok_0), sheet.len() as u32) is None,
{
    law_loaded_rows(plan, sheet);
    let rows = loaded_rows(plan, sheet)->Ok_0;
    let ids = row_ids(rows);
    assert forall|k: int| 0 <= k < sheet.len() implies ids[k] == k as u32 by {
        assert(row_of_cells(plan, sheet[k]) == Ok::<RowView, (Seq<char>, ParseErrorView)>(rows[k]));
        assert(id_of_row(plan.fields_count, sheet[k]) == Ok::<u32, (Seq<char>, ParseErrorView)>(
            k as u32,
        ));
    }
    assert forall|i: int| 0 <= i < sheet.len() implies position_of(ids, i as u32) == Some(i) by {
        lemma_position_of(ids, i as u32);
        assert(ids[i] == i as u32);
    }
    lemma_position_of(ids, sheet.len() as u32);
}

/// A row that breaks a constraint fails the load, and the error cites that
/// row: where the rows before data row `j` load, and data row `j` can be
/// read, has a fresh id and breaks a constraint, loading the sheet fails
/// with the error of that constraint, the name of its field, and the number
/// of data row `j`.
pub proof fn law_violation_fails(plan: TablePlan, sheet: Seq<Seq<CellView>>, j: int)
    requires
        0 <= j < sheet.len(),
        loaded_rows(plan, sheet.take(j)) is Ok,
        row_of_cells(plan, sheet[j]) is Ok,
        !row_ids(loaded_rows(plan, sheet.take(j))->Ok_0).contains(
            row_of_cells(plan, sheet[j])->Ok_0.id,
        ),
        violation(
            plan.fields@,
            loaded_rows(plan, sheet.take(j))->Ok_0,
            row_of_cells(plan, sheet[j])->Ok_0,
        ) is Some,
    ensures
        ({
            let broken = violation(
                plan.fields@,
                loaded_rows(plan, sheet.take(j))->Ok_0,
                row_of_cells(plan, sheet[j])->Ok_0,
            )->Some_0;
            loaded_rows(plan, sheet) == Err::<Seq<RowView>, ErrorView>(
                ErrorView::Constraint {
                    workbook: plan.workbook@,
                    sheet: plan.sheet@,
                    row: row_number(j),
                    column: broken.0,
                    error: broken.1,
                },
            )
        }),
{
    assert(sheet.take(j + 1).drop_last() == sheet.take(j));
    assert(sheet.take(j + 1).last() == sheet[j]);
    crate::data::arena::lemma_loaded_rows_prefix(plan, sheet, j + 1);
}

/// A value that an earlier row has in the same field breaks the unique
/// constraint of the field, which the error names with the value; a value
/// that no earlier row has does not.
pub proof fn law_unique(label: Seq<char>, earlier: Seq<RowView>, position: int, row: RowView)
    ensures
        taken(earlier, position, row.values[position]) ==> broken(
            Constraint::Unique,
            label,
            earlier,
            position,
            row.values[position],
        ) == Some(
            ConstraintErrorView::Unique {
                type_label: label,
                value: value_text(row.values[position]),
            },
        ),
        !taken(earlier, position, row.values[position]) ==> broken(
            Constraint::Unique,
            label,
            earlier,
            position,
            row.values[position],
        ) is None,
{
}

/// A constraint that the value of a field breaks makes a violation of the
/// row: the row breaks that constraint or one before it.
pub proof fn law_broken_is_violation(
    plan: TablePlan,
    earlier: Seq<RowView>,
    row: RowView,
    field: int,
    constraint: int,
)
    requires
        0 <= field < plan.fields@.len(),
        0 <= constraint < plan.fields@[field].constraints@.len(),
        broken(
            plan.fields@[field].constraints@[constraint],
            plan.fields@[field].label@,
            earlier,
            field,
            row.values[field],
        ) is Some,
    ensures
        violation(plan.fields@, earlier, row) is Some,
{
    let f = plan.fields@[field];
    lemma_first_broken_found(f.constraints@, f.label@, earlier, field, row.values[field], constraint);
    lemma_violation_found(plan.fields@, earlier, row, field);
}

proof fn lemma_first_broken_found(
    constraints: Seq<Constraint>,
    label: Seq<char>,
    earlier: Seq<RowView>,
    position: int,
    value: crate::data::value::ValueView,
    at: int,
)
    requires
        0 <= at < constraints.len(),
        broken(constraints[at], label, earlier, position, value) is Some,
    ensures
        first_broken(constraints, label, earlier, position, value) is Some,
    decreases constraints.len(),
{
    if at < constraints.len() - 1 {
        assert(constraints.drop_last()[at] == constraints[at]);
        lemma_first_broken_found(constraints.drop_last(), label, earlier, position, value, at);
    }
}

proof fn lemma_violation_found(
    fields: Seq<crate::data::plan::FieldPlan>,
    earlier: Seq<RowView>,
    row: RowView,
    at: int,
)
    requires
        0 <= at < fields.len(),
        first_broken(fields[at].constraints@, fields[at].label@, earlier, at, row.values[at])
            is Some,
    ensures
        violation(fields, earlier, row) is Some,
    decreases fields.len(),
{
    if at < fields.len() - 1 {
        assert(fields.drop_last()[at] == fields[at]);
        lemma_violation_found(fields.drop_last(), earlier, row, at);
    }
}

/// A row that can be read, has a fresh id and breaks no constraint is
/// loaded behind the rows before it.
pub proof fn law_sound_row_loads(plan: TablePlan, sheet: Seq<Seq<CellView>>)
    requires
        sheet.len() > 0,
        loaded_rows(plan, sheet.drop_last()) is Ok,
        row_of_cells(plan, sheet.last()) is Ok,
        !row_ids(loaded_rows(plan, sheet.drop_last())->Ok_0).contains(
            row_of_cells(plan, sheet.last())->Ok_0.id,
        ),
        violation(
            plan.fields@,
            loaded_rows(plan, sheet.drop_last())->Ok_0,
            row_of_cells(plan, sheet.last())->Ok_0,
        ) is None,
    ensures
        loaded_rows(plan, sheet) == Ok::<Seq<RowView>, ErrorView>(
            loaded_rows(plan, sheet.drop_last())->Ok_0.push(row_of_cells(plan, sheet.last())->Ok_0),
        ),
{
}

/// A link is resolved exactly where the index of its target table holds its
/// id: it then takes the place that the index gives, and otherwise the
/// error names the target type and the id.
pub proof fn law_link_resolution(
    link: Link,
    table: usize,
    label: Seq<char>,
    indexes: Seq<Map<u32, usize>>,
)
    requires
        table < indexes.len(),
    ensures
        indexes[table as int].contains_key(link.spec_id().0) ==> resolved_link(
            link,
            table,
            label,
            indexes,
        ) == Ok::<Link, LinkErrorView>(
            Link::Resolved {
                id: link.spec_id(),
                target: RowRef { table, slot: indexes[table as int][link.spec_id().0] },
            },
        ),
        !indexes[table as int].contains_key(link.spec_id().0) ==> resolved_link(
            link,
            table,
            label,
            indexes,
        ) == Err::<Link, LinkErrorView>(
            LinkErrorView::Missing { type_label: label, id: link.spec_id().0 },
        ),
{
}

/// Entering a row never takes an entry away: what an arena held, it holds
/// at the same places.
pub proof fn law_registered_keeps(
    plans: Seq<TablePlan>,
    entries: Seq<Seq<AbstractRow>>,
    child: usize,
    id: u32,
    slot: usize,
    fuel: nat,
)
    requires
        registered(plans, entries, child, id, slot, fuel) is Ok,
        crate::data::store::hierarchy_wf(plans),
        entries.len() == plans.len(),
        child < plans.len(),
    ensures
        keeps(entries, registered(plans, entries, child, id, slot, fuel)->Ok_0),
    decreases fuel,
{
    match plans[child as int].parent {
        None => {},
        Some(p) => if fuel > 0 {
            let entry = AbstractRow { id: DataId(id), variant: child, slot };
            let next = entries.update(p as int, entries[p as int].push(entry));
            law_registered_keeps(
                plans,
                next,
                p,
                id,
                entries[p as int].len() as usize,
                (fuel - 1) as nat,
            );
            let after = registered(plans, entries, child, id, slot, fuel)->Ok_0;
            assert forall|t: int| 0 <= t < entries.len() implies entries[t].len() <= (
            #[trigger] after[t]).len() by {
                assert(entries[t].len() <= next[t].len());
            }
            assert forall|t: int, k: int|
                0 <= t < entries.len() && 0 <= k < entries[t].len() implies #[trigger] after[t][k]
                == entries[t][k] by {
                assert(next[t][k] == entries[t][k]);
                assert(after[t][k] == next[t][k]);
            }
        },
    }
}

/// Entering a row of a table puts an entry into the arena of the table
/// above it: behind the entries the arena held, with the id of the row,
/// tagged with the table the row comes from and the place of the row there.
pub proof fn law_registered_entry(
    plans: Seq<TablePlan>,
    entries: Seq<Seq<AbstractRow>>,
    child: usize,
    id: u32,
    slot: usize,
    fuel: nat,
)
    requires
        registered(plans, entries, child, id, slot, fuel) is Ok,
        crate::data::store::hierarchy_wf(plans),
        entries.len() == plans.len(),
        child < plans.len(),
        plans[child as int].parent is Some,
        fuel > 0,
    ensures
        ({
            let p = plans[child as int].parent->0 as int;
            let after = registered(plans, entries, child, id, slot, fuel)->Ok_0;
            &&& !entry_ids(entries[p]).contains(id)
            &&& entries[p].len() < after[p].len()
            &&& after[p][entries[p].len() as int] == AbstractRow {
                id: DataId(id),
                variant: child,
                slot,
            }
        }),
{
    let p = plans[child as int].parent->0;
    let entry = AbstractRow { id: DataId(id), variant: child, slot };
    let next = entries.update(p as int, entries[p as int].push(entry));
    law_registered_keeps(plans, next, p, id, entries[p as int].len() as usize, (fuel - 1) as nat);
    assert(next[p as int][entries[p as int].len() as int] == entry);
}

/// Entering the rows of a table puts one entry for each of them into the
/// arena of the table above it, tagged with the table and the place of the
/// row.
pub proof fn law_registered_rows(
    plans: Seq<TablePlan>,
    entries: Seq<Seq<AbstractRow>>,
    t: usize,
    ids: Seq<u32>,
    upto: nat,
)
    requires
        registered_rows(plans, entries, t, ids, upto) is Ok,
        crate::data::store::hierarchy_wf(plans),
        entries.len() == plans.len(),
        t < plans.len(),
        upto <= ids.len(),
        upto <= usize::MAX,
    ensures
        keeps(entries, registered_rows(plans, entries, t, ids, upto)->Ok_0),
        plans[t as int].parent matches Some(p) ==> forall|k: int|
            0 <= k < upto ==> registered_rows(plans, entries, t, ids, upto)->Ok_0[p as int].contains(
                AbstractRow { id: DataId(#[trigger] ids[k]), variant: t, slot: k as usize },
            ),
    decreases upto,
{
    if upto > 0 {
        law_registered_rows(plans, entries, t, ids, (upto - 1) as nat);
        let found = registered_rows(plans, entries, t, ids, (upto - 1) as nat)->Ok_0;
        let after = registered_rows(plans, entries, t, ids, upto)->Ok_0;
        law_registered_keeps(plans, found, t, ids[upto - 1], (upto - 1) as usize, plans.len());
        assert forall|a: int| 0 <= a < entries.len() implies entries[a].len() <= (
        #[trigger] after[a]).len() by {
            assert(entries[a].len() <= found[a].len());
            assert(found[a].len() <= after[a].len());
        }
        assert forall|a: int, k: int|
            0 <= a < entries.len() && 0 <= k < entries[a].len() implies #[trigger] after[a][k]
            == entries[a][k] by {
            assert(found[a][k] == entries[a][k]);
            assert(found[a].len() <= after[a].len());
            assert(after[a][k] == found[a][k]);
        }
        if let Some(p) = plans[t as int].parent {
            law_registered_entry(plans, found, t, ids[upto - 1], (upto - 1) as usize, plans.len());
            assert forall|k: int| 0 <= k < upto implies after[p as int].contains(
                AbstractRow { id: DataId(#[trigger] ids[k]), variant: t, slot: k as usize },
            ) by {
                let entry = AbstractRow { id: DataId(ids[k]), variant: t, slot: k as usize };
                if k < upto - 1 {
                    assert(found[p as int].contains(entry));
                    let j = choose|j: int| 0 <= j < found[p as int].len() && found[p as int][j] == entry;
                    assert(found[p as int].len() <= after[p as int].len());
                    assert(after[p as int][j] == found[p as int][j]);
                } else {
                    let j = found[p as int].len() as int;
                    assert(after[p as int][j] == entry);
                }
            }
        }
    }
}

/// The place that an index gives for an id holds the id: a resolved link
/// leads to the row of its id.
pub proof fn law_resolved_place_holds_the_id(index: Map<u32, usize>, ids: Seq<u32>, id: u32)
    requires
        index_matches(index, ids),
    ensures
        index.contains_key(id) <==> ids.contains(id),
        index.contains_key(id) ==> index[id] < ids.len() && ids[index[id] as int] == id,
{
    if ids.contains(id) {
        let k = choose|k: int| 0 <= k < ids.len() && ids[k] == id;
        assert(index.contains_key(ids[k]));
    }
    if index.contains_key(id) {
        assert(ids[index[id] as int] == id);
    }
}

/// Table `a` stands above table `child`: it is reached from `child` by
/// going from a table to the table it extends, in `fuel` steps at most.
pub open spec fn is_above(plans: Seq<TablePlan>, child: usize, a: usize, fuel: nat) -> bool
    decreases fuel,
{
    fuel > 0 && match plans[child as int].parent {
        None => false,
        Some(p) => p == a || is_above(plans, p, a, (fuel - 1) as nat),
    }
}

/// Entering a row enters it into the arena of every table above its own:
/// each of them then holds an entry of the id of the row.
pub proof fn law_registered_reaches_all_above(
    plans: Seq<TablePlan>,
    entries: Seq<Seq<AbstractRow>>,
    child: usize,
    id: u32,
    slot: usize,
    fuel: nat,
    a: usize,
)
    requires
        registered(plans, entries, child, id, slot, fuel) is Ok,
        hierarchy_wf(plans),
        entries.len() == plans.len(),
        child < plans.len(),
        is_above(plans, child, a, fuel),
    ensures
        a < plans.len(),
        entry_ids(registered(plans, entries, child, id, slot, fuel)->Ok_0[a as int]).contains(id),
    decreases fuel,
{
    let p = plans[child as int].parent->0;
    let entry = AbstractRow { id: DataId(id), variant: child, slot };
    let next = entries.update(p as int, entries[p as int].push(entry));
    let after = registered(plans, entries, child, id, slot, fuel)->Ok_0;
    if p == a {
        law_registered_keeps(plans, next, p, id, entries[p as int].len() as usize, (fuel - 1) as nat);
        let at = entries[p as int].len() as int;
        assert(next[p as int][at] == entry);
        assert(after[p as int][at] == entry);
        assert(entry_ids(after[a as int])[at] == id);
    } else {
        law_registered_reaches_all_above(
            plans,
            next,
            p,
            id,
            entries[p as int].len() as usize,
            (fuel - 1) as nat,
            a,
        );
    }
}

/// A loaded table has entered its rows into the arena of the table above
/// it: for every row there is an entry of its id, tagged with the table and
/// the place of the row; and no arena has lost an entry.
pub proof fn law_loaded_table_enters_rows(
    plans: Seq<TablePlan>,
    sheets: Seq<Seq<Seq<CellView>>>,
    store: StoreView,
    t: usize,
)
    requires
        loaded_table(plans, sheets, store, t) is Ok,
        hierarchy_wf(plans),
        store.rows.len() == plans.len(),
        store.entries.len() == plans.len(),
        t < plans.len(),
        plans[t as int].concrete,
        sheets[t as int].len() <= usize::MAX,
    ensures
        ({
            let after = loaded_table(plans, sheets, store, t)->Ok_0;
            &&& loaded_rows(plans[t as int], sheets[t as int]) == Ok::<Seq<RowView>, ErrorView>(
                after.rows[t as int],
            )
            &&& keeps(store.entries, after.entries)
            &&& plans[t as int].parent matches Some(p) ==> forall|k: int|
                0 <= k < loaded_rows(plans[t as int], sheets[t as int])->Ok_0.len()
                    ==> after.entries[p as int].contains(
                    AbstractRow {
                        id: DataId(
                            (#[trigger] loaded_rows(plans[t as int], sheets[t as int])->Ok_0[k]).id,
                        ),
                        variant: t,
                        slot: k as usize,
                    },
                )
        }),
{
    let rows = loaded_rows(plans[t as int], sheets[t as int])->Ok_0;
    law_loaded_rows(plans[t as int], sheets[t as int]);
    law_registered_rows(plans, store.entries, t, row_ids(rows), rows.len());
    let after = loaded_table(plans, sheets, store, t)->Ok_0;
    if let Some(p) = plans[t as int].parent {
        assert forall|k: int| 0 <= k < rows.len() implies after.entries[p as int].contains(
            AbstractRow { id: DataId((#[trigger] rows[k]).id), variant: t, slot: k as usize },
        ) by {
            assert(row_ids(rows)[k] == rows[k].id);
        }
    }
}

/// An entry that is kept is still held.
proof fn lemma_kept_entry(
    before: Seq<Seq<AbstractRow>>,
    after: Seq<Seq<AbstractRow>>,
    a: int,
    entry: AbstractRow,
)
    requires
        keeps(before, after),
        0 <= a < before.len(),
        before[a].contains(entry),
    ensures
        after[a].contains(entry),
        entry_ids(after[a]).contains(entry.id.0),
{
    let k = choose|k: int| 0 <= k < before[a].len() && before[a][k] == entry;
    assert(before[a].len() <= after[a].len());
    assert(after[a][k] == entry);
    assert(entry_ids(after[a])[k] == entry.id.0);
}

/// The sheets are no longer than a machine can hold.
pub open spec fn sheets_fit(sheets: Seq<Seq<Seq<CellView>>>) -> bool {
    forall|t: int| 0 <= t < sheets.len() ==> (#[trigger] sheets[t]).len() <= usize::MAX
}

/// The store is one of as many tables as there are plans.
pub open spec fn store_fits(store: StoreView, plans: Seq<TablePlan>) -> bool {
    store.rows.len() == plans.len() && store.entries.len() == plans.len()
}

/// Loading a table keeps every entry and leaves the rows of every other
/// table as they are.
pub proof fn lemma_loaded_table_frame(
    plans: Seq<TablePlan>,
    sheets: Seq<Seq<Seq<CellView>>>,
    store: StoreView,
    u: usize,
)
    requires
        loaded_table(plans, sheets, store, u) is Ok,
        hierarchy_wf(plans),
        store_fits(store, plans),
        sheets.len() == plans.len(),
        sheets_fit(sheets),
        u < plans.len(),
    ensures
        store_fits(loaded_table(plans, sheets, store, u)->Ok_0, plans),
        keeps(store.entries, loaded_table(plans, sheets, store, u)->Ok_0.entries),
        forall|t: int|
            0 <= t < plans.len() && t != u ==> #[trigger] loaded_table(
                plans,
                sheets,
                store,
                u,
            )->Ok_0.rows[t] == store.rows[t],
{
    if plans[u as int].concrete {
        let rows = loaded_rows(plans[u as int], sheets[u as int])->Ok_0;
        law_loaded_rows(plans[u as int], sheets[u as int]);
        assert(sheets[u as int].len() <= usize::MAX);
        law_registered_rows(plans, store.entries, u, row_ids(rows), rows.len());
    } else {
        assert(keeps(store.entries, store.entries));
    }
}

/// Loading more tables of a level keeps every entry and leaves the rows of
/// the tables that are not among them as they are.
pub proof fn lemma_loaded_tables_frame(
    plans: Seq<TablePlan>,
    sheets: Seq<Seq<Seq<CellView>>>,
    store: StoreView,
    order: Seq<usize>,
    from: nat,
    upto: nat,
    t: int,
)
    requires
        from <= upto <= order.len(),
        loaded_tables(plans, sheets, store, order, upto) is Ok,
        hierarchy_wf(plans),
        store_fits(store, plans),
        sheets.len() == plans.len(),
        sheets_fit(sheets),
        forall|k: int| 0 <= k < order.len() ==> (#[trigger] order[k]) < plans.len(),
        0 <= t < plans.len(),
    ensures
        loaded_tables(plans, sheets, store, order, from) is Ok,
        store_fits(loaded_tables(plans, sheets, store, order, upto)->Ok_0, plans),
        store_fits(loaded_tables(plans, sheets, store, order, from)->Ok_0, plans),
        keeps(
            loaded_tables(plans, sheets, store, order, from)->Ok_0.entries,
            loaded_tables(plans, sheets, store, order, upto)->Ok_0.entries,
        ),
        (forall|k: int| from <= k < upto ==> (#[trigger] order[k]) != t) ==> loaded_tables(
            plans,
            sheets,
            store,
            order,
            upto,
        )->Ok_0.rows[t] == loaded_tables(plans, sheets, store, order, from)->Ok_0.rows[t],
    decreases upto,
{
    lemma_loaded_tables_fit(plans, sheets, store, order, upto);
    if from < upto {
        lemma_loaded_tables_frame(plans, sheets, store, order, from, (upto - 1) as nat, t);
        let before = loaded_tables(plans, sheets, store, order, (upto - 1) as nat)->Ok_0;
        assert(order[upto - 1] < plans.len());
        lemma_loaded_table_frame(plans, sheets, before, order[upto - 1]);
        if forall|k: int| from <= k < upto ==> (#[trigger] order[k]) != t {
            assert(order[upto - 1] != t);
        }
        lemma_keeps_twice(
            loaded_tables(plans, sheets, store, order, from)->Ok_0.entries,
            before.entries,
            loaded_tables(plans, sheets, store, order, upto)->Ok_0.entries,
        );
    } else {
        let same = loaded_tables(plans, sheets, store, order, upto)->Ok_0.entries;
        assert(keeps(same, same));
    }
}

/// The store stays one of as many tables as there are plans.
pub proof fn lemma_loaded_tables_fit(
    plans: Seq<TablePlan>,
    sheets: Seq<Seq<Seq<CellView>>>,
    store: StoreView,
    order: Seq<usize>,
    upto: nat,
)
    requires
        upto <= order.len(),
        loaded_tables(plans, sheets, store, order, upto) is Ok,
        hierarchy_wf(plans),
        store_fits(store, plans),
        sheets.len() == plans.len(),
        sheets_fit(sheets),
        forall|k: int| 0 <= k < order.len() ==> (#[trigger] order[k]) < plans.len(),
    ensures
        store_fits(loaded_tables(plans, sheets, store, order, upto)->Ok_0, plans),
    decreases upto,
{
    if upto > 0 {
        lemma_loaded_tables_fit(plans, sheets, store, order, (upto - 1) as nat);
        let before = loaded_tables(plans, sheets, store, order, (upto - 1) as nat)->Ok_0;
        assert(order[upto - 1] < plans.len());
        lemma_loaded_table_frame(plans, sheets, before, order[upto - 1]);
    }
}

/// Every table that a level names is a table of the plans.
pub open spec fn levels_fit(levels: Seq<Seq<usize>>, plans: Seq<TablePlan>) -> bool {
    forall|l: int, k: int|
        0 <= l < levels.len() && 0 <= k < levels[l].len() ==> (#[trigger] levels[l][k])
            < plans.len()
}

pub proof fn lemma_loaded_levels_fit(
    plans: Seq<TablePlan>,
    sheets: Seq<Seq<Seq<CellView>>>,
    store: StoreView,
    levels: Seq<Seq<usize>>,
    upto: nat,
)
    requires
        upto <= levels.len(),
        loaded_levels(plans, sheets, store, levels, upto) is Ok,
        hierarchy_wf(plans),
        store_fits(store, plans),
        sheets.len() == plans.len(),
        sheets_fit(sheets),
        levels_fit(levels, plans),
    ensures
        store_fits(loaded_levels(plans, sheets, store, levels, upto)->Ok_0, plans),
    decreases upto,
{
    if upto > 0 {
        lemma_loaded_levels_fit(plans, sheets, store, levels, (upto - 1) as nat);
        let before = loaded_levels(plans, sheets, store, levels, (upto - 1) as nat)->Ok_0;
        let level = levels[upto - 1];
        assert forall|k: int| 0 <= k < level.len() implies (#[trigger] level[k]) < plans.len() by {
            assert(levels[upto - 1][k] < plans.len());
        }
        lemma_loaded_tables_fit(plans, sheets, before, level, level.len());
    }
}

/// Loading more levels keeps every entry and leaves the rows of the tables
/// that the levels do not name as they are.
pub proof fn lemma_loaded_levels_frame(
    plans: Seq<TablePlan>,
    sheets: Seq<Seq<Seq<CellView>>>,
    store: StoreView,
    levels: Seq<Seq<usize>>,
    from: nat,
    upto: nat,
    t: int,
)
    requires
        from <= upto <= levels.len(),
        loaded_levels(plans, sheets, store, levels, upto) is Ok,
        hierarchy_wf(plans),
        store_fits(store, plans),
        sheets.len() == plans.len(),
        sheets_fit(sheets),
        levels_fit(levels, plans),
        0 <= t < plans.len(),
    ensures
        loaded_levels(plans, sheets, store, levels, from) is Ok,
        keeps(
            loaded_levels(plans, sheets, store, levels, from)->Ok_0.entries,
            loaded_levels(plans, sheets, store, levels, upto)->Ok_0.entries,
        ),
        (forall|l: int, k: int|
            from <= l < upto && 0 <= k < levels[l].len() ==> (#[trigger] levels[l][k]) != t)
            ==> loaded_levels(plans, sheets, store, levels, upto)->Ok_0.rows[t] == loaded_levels(
            plans,
            sheets,
            store,
            levels,
            from,
        )->Ok_0.rows[t],
    decreases upto,
{
    if from < upto {
        lemma_loaded_levels_frame(plans, sheets, store, levels, from, (upto - 1) as nat, t);
        lemma_loaded_levels_fit(plans, sheets, store, levels, (upto - 1) as nat);
        let before = loaded_levels(plans, sheets, store, levels, (upto - 1) as nat)->Ok_0;
        let level = levels[upto - 1];
        assert forall|k: int| 0 <= k < level.len() implies (#[trigger] level[k]) < plans.len() by {
            assert(levels[upto - 1][k] < plans.len());
        }
        if forall|l: int, k: int|
            from <= l < upto && 0 <= k < levels[l].len() ==> (#[trigger] levels[l][k]) != t {
            assert forall|k: int| 0 <= k < level.len() implies (#[trigger] level[k]) != t by {
                assert(levels[upto - 1][k] != t);
            }
        }
        lemma_loaded_tables_frame(plans, sheets, before, level, 0, level.len(), t);
        lemma_keeps_twice(
            loaded_levels(plans, sheets, store, levels, from)->Ok_0.entries,
            before.entries,
            loaded_levels(plans, sheets, store, levels, upto)->Ok_0.entries,
        );
    } else {
        let same = loaded_levels(plans, sheets, store, levels, upto)->Ok_0.entries;
        assert(keeps(same, same));
    }
}

/// After all levels are loaded, the store holds the rows of every concrete
/// table that the levels name once, as its sheet loads, and the arena of
/// the table above holds one entry for each of the rows, tagged with the
/// table and the place of the row.
pub proof fn law_loaded_levels_hold_every_row(
    plans: Seq<TablePlan>,
    sheets: Seq<Seq<Seq<CellView>>>,
    levels: Seq<Seq<usize>>,
    l: int,
    j: int,
)
    requires
        loaded_levels(plans, sheets, StoreView::empty(plans.len()), levels, levels.len()) is Ok,
        hierarchy_wf(plans),
        sheets.len() == plans.len(),
        sheets_fit(sheets),
        levels_fit(levels, plans),
        0 <= l < levels.len(),
        0 <= j < levels[l].len(),
        plans[levels[l][j] as int].concrete,
        forall|m: int, k: int|
            0 <= m < levels.len() && 0 <= k < levels[m].len() && #[trigger] levels[m][k]
                == levels[l][j] ==> m == l && k == j,
    ensures
        ({
            let t = levels[l][j];
            let store = loaded_levels(
                plans,
                sheets,
                StoreView::empty(plans.len()),
                levels,
                levels.len(),
            )->Ok_0;
            &&& loaded_rows(plans[t as int], sheets[t as int]) == Ok::<Seq<RowView>, ErrorView>(
                store.rows[t as int],
            )
            &&& plans[t as int].parent matches Some(p) ==> forall|k: int|
                0 <= k < store.rows[t as int].len() ==> store.entries[p as int].contains(
                    AbstractRow {
                        id: DataId((#[trigger] store.rows[t as int][k]).id),
                        variant: t,
                        slot: k as usize,
                    },
                )
        }),
{
    let empty = StoreView::empty(plans.len());
    let t = levels[l][j];
    let level = levels[l];
    let total = levels.len();
    assert(t < plans.len());
    assert forall|k: int| 0 <= k < level.len() implies (#[trigger] level[k]) < plans.len() by {
        assert(levels[l][k] < plans.len());
    }
    // The levels behind level `l` do not name the table.
    assert forall|m: int, k: int|
        l + 1 <= m < total && 0 <= k < levels[m].len() implies (#[trigger] levels[m][k]) != t by {}
    lemma_loaded_levels_frame(plans, sheets, empty, levels, (l + 1) as nat, total, t as int);
    lemma_loaded_levels_frame(plans, sheets, empty, levels, l as nat, (l + 1) as nat, 0);
    lemma_loaded_levels_fit(plans, sheets, empty, levels, l as nat);
    let at_level = loaded_levels(plans, sheets, empty, levels, l as nat)->Ok_0;
    let after_level = loaded_levels(plans, sheets, empty, levels, (l + 1) as nat)->Ok_0;
    // Nor do the tables behind it in level `l`.
    assert forall|k: int| j + 1 <= k < level.len() implies (#[trigger] level[k]) != t by {
        assert(levels[l][k] != t);
    }
    lemma_loaded_tables_frame(
        plans,
        sheets,
        at_level,
        level,
        (j + 1) as nat,
        level.len(),
        t as int,
    );
    lemma_loaded_tables_frame(plans, sheets, at_level, level, j as nat, (j + 1) as nat, 0);
    let before = loaded_tables(plans, sheets, at_level, level, j as nat)->Ok_0;
    let loaded = loaded_tables(plans, sheets, at_level, level, (j + 1) as nat)->Ok_0;
    assert(loaded == loaded_table(plans, sheets, before, t)->Ok_0);
    assert(sheets[t as int].len() <= usize::MAX);
    law_loaded_table_enters_rows(plans, sheets, before, t);
    let store = loaded_levels(plans, sheets, empty, levels, total)->Ok_0;
    lemma_keeps_twice(loaded.entries, after_level.entries, store.entries);
    if let Some(p) = plans[t as int].parent {
        assert forall|k: int| 0 <= k < store.rows[t as int].len() implies store.entries[p as int].contains(
            AbstractRow {
                id: DataId((#[trigger] store.rows[t as int][k]).id),
                variant: t,
                slot: k as usize,
            },
        ) by {
            let entry = AbstractRow {
                id: DataId(store.rows[t as int][k].id),
                variant: t,
                slot: k as usize,
            };
            assert(loaded.entries[p as int].contains(entry));
            lemma_kept_entry(loaded.entries, store.entries, p as int, entry);
        }
    }
}

/// Resolving the links of all tables keeps the number of tables and, for
/// every table, the ids of its rows.
pub proof fn lemma_resolved_tables_ids(
    plans: Seq<TablePlan>,
    rows: Seq<Seq<RowView>>,
    maps: Seq<Map<u32, usize>>,
    upto: nat,
)
    requires
        upto <= rows.len(),
        resolved_tables(plans, rows, maps, upto) is Ok,
    ensures
        resolved_tables(plans, rows, maps, upto)->Ok_0.len() == upto,
        forall|t: int|
            0 <= t < upto ==> row_ids(#[trigger] resolved_tables(plans, rows, maps, upto)->Ok_0[t])
                == row_ids(rows[t]),
    decreases upto,
{
    if upto > 0 {
        lemma_resolved_tables_ids(plans, rows, maps, (upto - 1) as nat);
        let done = resolved_tables(plans, rows, maps, (upto - 1) as nat)->Ok_0;
        let table = rows[upto - 1];
        crate::data::store::lemma_resolved_rows_ids(plans[upto - 1], table, maps, table.len());
        assert(table.take(table.len() as int) == table);
        let after = resolved_tables(plans, rows, maps, upto)->Ok_0;
        assert forall|t: int| 0 <= t < upto implies row_ids(#[trigger] after[t]) == row_ids(
            rows[t],
        ) by {
            if t < upto - 1 {
                assert(after[t] == done[t]);
            }
        }
    }
}

/// After loading, the arena of an abstract table holds one entry for each
/// row of every concrete table that extends it and that the levels name
/// once: the entry has the id of the row and is tagged with the table and
/// the place of the row. The rows are those that the sheet of the table
/// loads as, with their links resolved.
pub proof fn law_loaded_store_holds_every_row(
    plans: Seq<TablePlan>,
    sheets: Seq<Seq<Seq<CellView>>>,
    levels: Seq<Seq<usize>>,
    l: int,
    j: int,
)
    requires
        loaded_store(plans, sheets, levels) is Ok,
        hierarchy_wf(plans),
        sheets.len() == plans.len(),
        sheets_fit(sheets),
        levels_fit(levels, plans),
        0 <= l < levels.len(),
        0 <= j < levels[l].len(),
        plans[levels[l][j] as int].concrete,
        forall|m: int, k: int|
            0 <= m < levels.len() && 0 <= k < levels[m].len() && #[trigger] levels[m][k]
                == levels[l][j] ==> m == l && k == j,
    ensures
        ({
            let t = levels[l][j];
            let store = loaded_store(plans, sheets, levels)->Ok_0;
            &&& loaded_rows(plans[t as int], sheets[t as int]) is Ok
            &&& row_ids(store.rows[t as int]) == row_ids(
                loaded_rows(plans[t as int], sheets[t as int])->Ok_0,
            )
            &&& plans[t as int].parent matches Some(p) ==> forall|k: int|
                0 <= k < store.rows[t as int].len() ==> store.entries[p as int].contains(
                    AbstractRow {
                        id: DataId((#[trigger] store.rows[t as int][k]).id),
                        variant: t,
                        slot: k as usize,
                    },
                )
        }),
{
    let empty = StoreView::empty(plans.len());
    let t = levels[l][j];
    assert(t < plans.len());
    let loaded = loaded_levels(plans, sheets, empty, levels, levels.len())->Ok_0;
    let store = loaded_store(plans, sheets, levels)->Ok_0;
    law_loaded_levels_hold_every_row(plans, sheets, levels, l, j);
    lemma_loaded_levels_fit(plans, sheets, empty, levels, levels.len());
    lemma_resolved_tables_ids(plans, loaded.rows, loaded.maps(), plans.len());
    assert(row_ids(store.rows[t as int]) == row_ids(loaded.rows[t as int]));
    assert(store.rows[t as int].len() == row_ids(store.rows[t as int]).len());
    assert(loaded.rows[t as int].len() == row_ids(loaded.rows[t as int]).len());
    if let Some(p) = plans[t as int].parent {
        assert forall|k: int| 0 <= k < store.rows[t as int].len() implies store.entries[p as int].contains(
            AbstractRow {
                id: DataId((#[trigger] store.rows[t as int][k]).id),
                variant: t,
                slot: k as usize,
            },
        ) by {
            assert(row_ids(store.rows[t as int])[k] == store.rows[t as int][k].id);
            assert(row_ids(loaded.rows[t as int])[k] == loaded.rows[t as int][k].id);
        }
    }
}

/// A row whose id the arena just above holds is refused and changes
/// nothing: every arena is left as it is.
pub proof fn law_refused_row_changes_nothing(
    plans: Seq<TablePlan>,
    entries: Seq<Seq<AbstractRow>>,
    child: usize,
    id: u32,
    slot: usize,
    fuel: nat,
)
    requires
        fuel > 0,
        plans[child as int].parent matches Some(p) && entry_ids(entries[p as int]).contains(id),
    ensures
        registered(plans, entries, child, id, slot, fuel) is Err,
        entered(plans, entries, child, id, slot, fuel) == entries,
{
}

} // verus!
