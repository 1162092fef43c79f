//! The arena of a concrete table: the rows loaded from its sheet, kept in
//! the order of the sheet and found by their id.

use crate::data::cell::{integer_text, row_view, sheet_view, Cell, CellView};
use crate::data::constraint::{
    broken, first_broken, integer_of, same_value, taken, text_of_value, value_key, violation,
};
use crate::data::error::{ConstraintError, Error, ErrorView};
use crate::data::parse::{row_of_cells, values_of_row};
use crate::data::plan::{FieldPlan, TablePlan};
use crate::data::value::{rows_view, Row, RowView, Value, ValueView};
use crate::data::link::Linkable;
use crate::data::written::row_text;
use crate::data::DataId;
use crate::generator::table::Constraint;
use crate::generator::{lemma_position_of, position_of};
use crate::HEADER_ROWS;
use std::collections::HashMap;
use vstd::prelude::*;

verus! {

broadcast use vstd::std_specs::hash::group_hash_axioms;

/// The number that the row at position `k` of the data rows has in its
/// sheet, counting from one with the header rows before it.
pub open spec fn row_number(k: int) -> usize {
    if k + HEADER_ROWS + 1 <= usize::MAX {
        (k + HEADER_ROWS + 1) as usize
    } else {
        usize::MAX
    }
}

/// The ids of rows, in order.
pub open spec fn row_ids(rows: Seq<RowView>) -> Seq<u32> {
    rows.map_values(|r: RowView| r.id)
}

/// The rows that the data rows of a sheet load as. Loading stops at the
/// first row that cannot be read, that has the id of an earlier row, or that
/// breaks a constraint.
pub open spec fn loaded_rows(plan: TablePlan, sheet: Seq<Seq<CellView>>) -> Result<
    Seq<RowView>,
    ErrorView,
>
    decreases sheet.len(),
{
    if sheet.len() == 0 {
        Ok(Seq::empty())
    } else {
        match loaded_rows(plan, sheet.drop_last()) {
            Err(e) => Err(e),
            Ok(rows) => match row_of_cells(plan, sheet.last()) {
                Err((column, error)) => Err(
                    ErrorView::Parse {
                        workbook: plan.workbook@,
                        sheet: plan.sheet@,
                        row: row_number(sheet.len() - 1),
                        column,
                        error,
                    },
                ),
                Ok(row) => if row_ids(rows).contains(row.id) {
                    Err(
                        ErrorView::DuplicateId {
                            type_label: plan.label@,
                            id: row.id,
                            a: row_text(rows[position_of(row_ids(rows), row.id)->0]),
                            b: row_text(row),
                        },
                    )
                } else {
                    match violation(plan.fields@, rows, row) {
                        Some((column, error)) => Err(
                            ErrorView::Constraint {
                                workbook: plan.workbook@,
                                sheet: plan.sheet@,
                                row: row_number(sheet.len() - 1),
                                column,
                                error,
                            },
                        ),
                        None => Ok(rows.push(row)),
                    }
                },
            },
        }
    }
}

/// The rows of a concrete table.
#[derive(Debug, PartialEq, Eq)]
pub struct Arena {
    /// The rows, in the order of the sheet.
    pub rows: Vec<Row>,
    /// For each id, the position of its row.
    pub index: HashMap<u32, usize>,
}

impl Linkable for Arena {
    open spec fn spec_find(&self, id: u32) -> Option<usize> {
        self.index.spec_find(id)
    }

    fn find(&self, id: &DataId) -> (r: Option<usize>) {
        self.index.find(id)
    }
}

/// A fault among the first constraints is the fault of them all.
proof fn lemma_first_broken_prefix(
    constraints: Seq<Constraint>,
    label: Seq<char>,
    earlier: Seq<RowView>,
    position: int,
    value: ValueView,
    upto: int,
)
    requires
        0 <= upto <= constraints.len(),
        first_broken(constraints.take(upto), label, earlier, position, value) is Some,
    ensures
        first_broken(constraints, label, earlier, position, value) == first_broken(
            constraints.take(upto),
            label,
            earlier,
            position,
            value,
        ),
    decreases constraints.len() - upto,
{
    if upto < constraints.len() {
        assert(constraints.take(upto + 1).drop_last() == constraints.take(upto));
        lemma_first_broken_prefix(constraints, label, earlier, position, value, upto + 1);
    } else {
        assert(constraints.take(upto) == constraints);
    }
}

/// A violation among the first fields is the violation of the row.
proof fn lemma_violation_prefix(
    fields: Seq<FieldPlan>,
    earlier: Seq<RowView>,
    row: RowView,
    upto: int,
)
    requires
        0 <= upto <= fields.len(),
        violation(fields.take(upto), earlier, row) is Some,
    ensures
        violation(fields, earlier, row) == violation(fields.take(upto), earlier, row),
    decreases fields.len() - upto,
{
    if upto < fields.len() {
        assert(fields.take(upto + 1).drop_last() == fields.take(upto));
        lemma_violation_prefix(fields, earlier, row, upto + 1);
    } else {
        assert(fields.take(upto) == fields);
    }
}

/// A row has one value for each loaded field.
pub proof fn lemma_values_len(fields: Seq<FieldPlan>, row: Seq<CellView>)
    requires
        values_of_row(fields, row) is Ok,
    ensures
        values_of_row(fields, row)->Ok_0.len() == fields.len(),
    decreases fields.len(),
{
    if fields.len() > 0 {
        lemma_values_len(fields.drop_last(), row);
    }
}

/// A fault among the first rows is the fault of the sheet.
pub proof fn lemma_loaded_rows_prefix(plan: TablePlan, sheet: Seq<Seq<CellView>>, upto: int)
    requires
        0 <= upto <= sheet.len(),
        loaded_rows(plan, sheet.take(upto)) is Err,
    ensures
        loaded_rows(plan, sheet) == loaded_rows(plan, sheet.take(upto)),
    decreases sheet.len() - upto,
{
    if upto < sheet.len() {
        assert(sheet.take(upto + 1).drop_last() == sheet.take(upto));
        lemma_loaded_rows_prefix(plan, sheet, upto + 1);
    } else {
        assert(sheet.take(upto) == sheet);
    }
}

/// Whether an earlier row has, at `position`, a value that compares equal to
/// `value`.
fn is_taken(earlier: &Vec<Row>, position: usize, value: &Value) -> (r: bool)
    requires
        forall|k: int| 0 <= k < earlier@.len() ==> position < (#[trigger] earlier@[k]).values@.len(),
    ensures
        r == taken(rows_view(earlier@), position as int, value@),
{
    let mut k: usize = 0;
    while k < earlier.len()
        invariant
            k <= earlier.len(),
            forall|j: int|
                0 <= j < earlier@.len() ==> position < (#[trigger] earlier@[j]).values@.len(),
            forall|j: int|
                0 <= j < k ==> value_key((#[trigger] rows_view(earlier@)[j]).values[position as int])
                    != value_key(value@),
        decreases earlier.len() - k,
    {
        assert(rows_view(earlier@)[k as int].values[position as int]
            == earlier@[k as int].values@[position as int]@);
        if same_value(&earlier[k].values[position], value) {
            return true;
        }
        k += 1;
    }
    false
}

/// The error of a constraint that the value breaks.
fn check_constraint(
    constraint: &Constraint,
    label: &String,
    earlier: &Vec<Row>,
    position: usize,
    value: &Value,
) -> (r: Option<ConstraintError>)
    requires
        forall|k: int| 0 <= k < earlier@.len() ==> position < (#[trigger] earlier@[k]).values@.len(),
    ensures
        match r {
            Some(e) => broken(*constraint, label@, rows_view(earlier@), position as int, value@)
                == Some(e@),
            None => broken(*constraint, label@, rows_view(earlier@), position as int, value@)
                is None,
        },
{
    match constraint {
        Constraint::Unique => {
            if is_taken(earlier, position, value) {
                Some(
                    ConstraintError::Unique {
                        type_label: label.clone(),
                        value: text_of_value(value),
                    },
                )
            } else {
                None
            }
        },
        Constraint::Max(m) => match integer_of(value) {
            Some(v) => if v > *m as i128 {
                Some(
                    ConstraintError::Max {
                        type_label: label.clone(),
                        expected: integer_text(*m as i128),
                        actual: text_of_value(value),
                    },
                )
            } else {
                None
            },
            None => None,
        },
        Constraint::Min(m) => match integer_of(value) {
            Some(v) => if v < *m as i128 {
                Some(
                    ConstraintError::Min {
                        type_label: label.clone(),
                        expected: integer_text(*m as i128),
                        actual: text_of_value(value),
                    },
                )
            } else {
                None
            },
            None => None,
        },
    }
}

/// The first constraint that `row` breaks, given the rows loaded before it.
pub fn check_constraints(fields: &Vec<FieldPlan>, earlier: &Vec<Row>, row: &Row) -> (r: Option<
    (String, ConstraintError),
>)
    requires
        row.values@.len() == fields@.len(),
        forall|k: int|
            0 <= k < earlier@.len() ==> (#[trigger] earlier@[k]).values@.len() == fields@.len(),
    ensures
        match r {
            Some(e) => violation(fields@, rows_view(earlier@), row@) == Some((e.0@, e.1@)),
            None => violation(fields@, rows_view(earlier@), row@) is None,
        },
{
    let ghost before = rows_view(earlier@);
    let mut i: usize = 0;
    while i < fields.len()
        invariant
            i <= fields.len(),
            before == rows_view(earlier@),
            row.values@.len() == fields@.len(),
            forall|k: int|
                0 <= k < earlier@.len() ==> (#[trigger] earlier@[k]).values@.len() == fields@.len(),
            violation(fields@.take(i as int), before, row@) is None,
        decreases fields.len() - i,
    {
        let field = &fields[i];
        let value = &row.values[i];
        proof {
            assert(fields@.take(i + 1).drop_last() == fields@.take(i as int));
            assert(fields@.take(i + 1).last() == fields@[i as int]);
            assert(row@.values[i as int] == value@);
        }
        let mut j: usize = 0;
        while j < field.constraints.len()
            invariant
                j <= field.constraints.len(),
                i < fields.len(),
                before == rows_view(earlier@),
                forall|k: int|
                    0 <= k < earlier@.len() ==> (#[trigger] earlier@[k]).values@.len()
                        == fields@.len(),
                first_broken(
                    field.constraints@.take(j as int),
                    field.label@,
                    before,
                    i as int,
                    value@,
                ) is None,
                *field == fields@[i as int],
                row@.values[i as int] == value@,
                fields@.take(i + 1).drop_last() == fields@.take(i as int),
                fields@.take(i + 1).last() == fields@[i as int],
                violation(fields@.take(i as int), before, row@) is None,
            decreases field.constraints.len() - j,
        {
            proof {
                assert(field.constraints@.take(j + 1).drop_last() == field.constraints@.take(
                    j as int,
                ));
                assert(field.constraints@.take(j + 1).last() == field.constraints@[j as int]);
            }
            match check_constraint(&field.constraints[j], &field.label, earlier, i, value) {
                Some(e) => {
                    proof {
                        lemma_first_broken_prefix(
                            field.constraints@,
                            field.label@,
                            before,
                            i as int,
                            value@,
                            j + 1,
                        );
                        assert(violation(fields@.take(i + 1), before, row@) == Some(
                            (field.name@, e@),
                        ));
                        lemma_violation_prefix(fields@, before, row@, i + 1);
                    }
                    return Some((field.name.clone(), e));
                },
                None => {},
            }
            j += 1;
        }
        assert(field.constraints@.take(field.constraints.len() as int) == field.constraints@);
        i += 1;
    }
    assert(fields@.take(fields.len() as int) == fields@);
    None
}

/// The number of the data row at position `k`.
pub fn number_of_row(k: usize) -> (r: usize)
    ensures
        r == row_number(k as int),
{
    if k <= usize::MAX - HEADER_ROWS - 1 {
        k + HEADER_ROWS + 1
    } else {
        usize::MAX
    }
}

impl Arena {
    /// The ids of the rows, in order.
    pub open spec fn ids(&self) -> Seq<u32> {
        row_ids(rows_view(self.rows@))
    }

    /// The index finds every row, and nothing else: no two rows have one id.
    pub open spec fn wf(&self) -> bool {
        &&& forall|id: u32| #[trigger]
            self.index@.contains_key(id) ==> self.index@[id] < self.rows@.len()
                && self.rows@[self.index@[id] as int].id.0 == id
        &&& forall|k: int|
            0 <= k < self.rows@.len() ==> self.index@.contains_key(
                (#[trigger] self.rows@[k]).id.0,
            ) && self.index@[self.rows@[k].id.0] == k
    }

    /// The position of the row with that id.
    pub open spec fn spec_slot(&self, id: u32) -> Option<int> {
        position_of(self.ids(), id)
    }

    /// An arena without rows.
    pub fn new() -> (r: Self)
        ensures
            r.wf(),
            r.rows@.len() == 0,
    {
        Arena { rows: Vec::new(), index: HashMap::new() }
    }

    /// The number of rows.
    pub fn len(&self) -> (r: usize)
        ensures
            r == self.rows@.len(),
    {
        self.rows.len()
    }

    /// The position of the row with that id.
    pub fn slot(&self, id: &DataId) -> (r: Option<usize>)
        requires
            self.wf(),
        ensures
            match r {
                Some(k) => self.spec_slot(id.0) == Some(k as int) && k < self.rows@.len()
                    && self.rows@[k as int].id == *id,
                None => self.spec_slot(id.0) is None,
            },
    {
        proof {
            lemma_position_of(self.ids(), id.0);
            assert forall|k: int| 0 <= k < self.rows@.len() implies self.ids()[k]
                == self.rows@[k].id.0 by {
                assert(rows_view(self.rows@)[k] == self.rows@[k]@);
            }
        }
        match self.index.get(&id.0) {
            Some(k) => {
                proof {
                    let found = self.spec_slot(id.0);
                    assert(self.ids()[*k as int] == id.0);
                    assert(found is Some);
                    assert(self.ids()[found->0] == id.0);
                    assert(self.index@[self.rows@[found->0].id.0] == found->0);
                }
                Some(*k)
            },
            None => {
                proof {
                    if self.spec_slot(id.0) is Some {
                        let k = self.spec_slot(id.0)->0;
                        assert(self.index@.contains_key(self.rows@[k].id.0));
                    }
                }
                None
            },
        }
    }

    /// The row with that id.
    pub fn get(&self, id: &DataId) -> (r: Option<&Row>)
        requires
            self.wf(),
        ensures
            match r {
                Some(row) => self.spec_slot(id.0) is Some && *row == self.rows@[self.spec_slot(
                    id.0,
                )->0] && row.id == *id,
                None => self.spec_slot(id.0) is None,
            },
    {
        match self.slot(id) {
            Some(k) => Some(&self.rows[k]),
            None => None,
        }
    }

    /// The row at that position.
    pub fn row(&self, slot: usize) -> (r: Option<&Row>)
        ensures
            match r {
                Some(row) => slot < self.rows@.len() && *row == self.rows@[slot as int],
                None => slot >= self.rows@.len(),
            },
    {
        if slot < self.rows.len() {
            Some(&self.rows[slot])
        } else {
            None
        }
    }

    /// Loads the data rows of a sheet.
    pub fn load(sheet: &Vec<Vec<Cell>>, plan: &TablePlan) -> (r: Result<Arena, Error>)
        requires
            plan.wf(),
        ensures
            match r {
                Ok(arena) => arena.wf() && loaded_rows(*plan, sheet_view(sheet@)) == Ok::<
                    Seq<RowView>,
                    ErrorView,
                >(rows_view(arena.rows@)),
                Err(e) => loaded_rows(*plan, sheet_view(sheet@)) == Err::<Seq<RowView>, ErrorView>(
                    e@,
                ),
            },
    {
        let ghost cells = sheet_view(sheet@);
        let mut arena = Arena::new();
        let mut i: usize = 0;
        assert(rows_view(arena.rows@) == Seq::<RowView>::empty());
        while i < sheet.len()
            invariant
                i <= sheet.len(),
                plan.wf(),
                cells == sheet_view(sheet@),
                arena.wf(),
                forall|k: int|
                    0 <= k < arena.rows@.len() ==> (#[trigger] arena.rows@[k]).values@.len()
                        == plan.fields@.len(),
                loaded_rows(*plan, cells.take(i as int)) == Ok::<Seq<RowView>, ErrorView>(
                    rows_view(arena.rows@),
                ),
            decreases sheet.len() - i,
        {
            let ghost before = rows_view(arena.rows@);
            proof {
                assert(cells.take(i + 1).drop_last() == cells.take(i as int));
                assert(cells.take(i + 1).last() == row_view(sheet@[i as int]@));
            }
            let row = match Row::parse(&sheet[i], plan) {
                Err((column, error)) => {
                    let e = Error::Parse {
                        workbook: plan.workbook.clone(),
                        sheet: plan.sheet.clone(),
                        row: number_of_row(i),
                        column,
                        error,
                    };
                    proof {
                        assert(loaded_rows(*plan, cells.take(i + 1)) == Err::<
                            Seq<RowView>,
                            ErrorView,
                        >(e@));
                        lemma_loaded_rows_prefix(*plan, cells, i + 1);
                    }
                    return Err(e);
                },
                Ok(row) => row,
            };
            proof {
                lemma_values_len(plan.fields@, row_view(sheet@[i as int]@));
                assert(row@.values.len() == row.values@.len());
                assert forall|k: int| 0 <= k < arena.rows@.len() implies row_ids(before)[k]
                    == arena.rows@[k].id.0 by {
                    assert(before[k] == arena.rows@[k]@);
                }
            }
            match arena.slot(&row.id) {
                Some(held) => {
                    let e = Error::DuplicateId {
                        type_label: plan.label.clone(),
                        id: row.id,
                        a: arena.rows[held].to_text(),
                        b: row.to_text(),
                    };
                    proof {
                        assert(row_ids(before)[held as int] == row.id.0);
                        assert(before[held as int] == arena.rows@[held as int]@);
                        assert(loaded_rows(*plan, cells.take(i + 1)) == Err::<
                            Seq<RowView>,
                            ErrorView,
                        >(e@));
                        lemma_loaded_rows_prefix(*plan, cells, i + 1);
                    }
                    return Err(e);
                },
                None => {
                    proof {
                        lemma_position_of(row_ids(before), row.id.0);
                        if arena.index@.contains_key(row.id.0) {
                            let k = arena.index@[row.id.0] as int;
                            assert(row_ids(before)[k] == row.id.0);
                        }
                        assert(!row_ids(before).contains(row.id.0));
                    }
                },
            }
            match check_constraints(&plan.fields, &arena.rows, &row) {
                Some((column, error)) => {
                    let e = Error::Constraint {
                        workbook: plan.workbook.clone(),
                        sheet: plan.sheet.clone(),
                        row: number_of_row(i),
                        column,
                        error,
                    };
                    proof {
                        assert(loaded_rows(*plan, cells.take(i + 1)) == Err::<
                            Seq<RowView>,
                            ErrorView,
                        >(e@));
                        lemma_loaded_rows_prefix(*plan, cells, i + 1);
                    }
                    return Err(e);
                },
                None => {},
            }
            let ghost view = row@;
            let id = row.id.0;
            let slot = arena.rows.len();
            arena.index.insert(id, slot);
            arena.rows.push(row);
            proof {
                assert(rows_view(arena.rows@) == before.push(view));
            }
            i += 1;
        }
        assert(cells.take(sheet.len() as int) == cells);
        Ok(arena)
    }
}

} // verus!
