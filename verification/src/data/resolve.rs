//! When the links of the rows of a table resolve, and what resolving leaves
//! as it is.

use crate::data::constraint::{element_key, scalar_key, value_key};
use crate::data::error::{ErrorView, LinkErrorView};
use crate::data::link::{
    resolved_element, resolved_elements, resolved_row, resolved_scalar, resolved_scalars,
    resolved_value, resolved_values,
};
use crate::data::plan::{ElementPlan, FieldPlan, KindPlan, TablePlan};
use crate::data::store::resolved_rows;
use crate::data::value::{ElementView, RowView, ScalarView, ValueView};
use vstd::prelude::*;

verus! {

/// A scalar that is a link, by a plan that is a link, has a target: the
/// index of the table of the plan holds its id.
pub open spec fn scalar_resolves(s: ScalarView, plan: ElementPlan, maps: Seq<Map<u32, usize>>) -> bool {
    match (s, plan) {
        (ScalarView::Link(link), ElementPlan::Link { table, .. }) => table < maps.len()
            && maps[table as int].contains_key(link.spec_id().0),
        _ => true,
    }
}

/// Every component that has a plan has a target if it is a link.
pub open spec fn scalars_resolve(
    v: Seq<ScalarView>,
    plans: Seq<ElementPlan>,
    maps: Seq<Map<u32, usize>>,
) -> bool {
    forall|k: int|
        0 <= k < v.len() && k < plans.len() ==> scalar_resolves(#[trigger] v[k], plans[k], maps)
}

/// Every link of an element has a target.
pub open spec fn element_resolves(e: ElementView, kind: KindPlan, maps: Seq<Map<u32, usize>>) -> bool {
    match (e, kind) {
        (ElementView::One(s), KindPlan::One(plan)) => scalar_resolves(s, plan, maps),
        (ElementView::Tuple(v), KindPlan::Tuple(plans)) => scalars_resolve(v, plans@, maps),
        _ => true,
    }
}

/// Every link of every element has a target.
pub open spec fn elements_resolve(
    es: Seq<ElementView>,
    kind: KindPlan,
    maps: Seq<Map<u32, usize>>,
) -> bool {
    forall|k: int| 0 <= k < es.len() ==> element_resolves(#[trigger] es[k], kind, maps)
}

/// Every link of a value has a target.
pub open spec fn value_resolves(v: ValueView, kind: KindPlan, maps: Seq<Map<u32, usize>>) -> bool {
    match v {
        ValueView::Single(e) => element_resolves(e, kind, maps),
        ValueView::Optional(None) => true,
        ValueView::Optional(Some(e)) => element_resolves(e, kind, maps),
        ValueView::Multi(es) => elements_resolve(es, kind, maps),
    }
}

/// Every link of every value that has a field has a target.
pub open spec fn values_resolve(
    values: Seq<ValueView>,
    fields: Seq<FieldPlan>,
    maps: Seq<Map<u32, usize>>,
) -> bool {
    forall|k: int|
        0 <= k < values.len() && k < fields.len() ==> value_resolves(
            #[trigger] values[k],
            fields[k].kind,
            maps,
        )
}

/// Two sequences of scalars compare equal, component by component.
pub open spec fn same_scalars(a: Seq<ScalarView>, b: Seq<ScalarView>) -> bool {
    a.len() == b.len() && forall|k: int|
        0 <= k < a.len() ==> scalar_key(#[trigger] a[k]) == scalar_key(b[k])
}

/// Two sequences of elements compare equal, element by element.
pub open spec fn same_elements(a: Seq<ElementView>, b: Seq<ElementView>) -> bool {
    a.len() == b.len() && forall|k: int|
        0 <= k < a.len() ==> element_key(#[trigger] a[k]) == element_key(b[k])
}

/// Two sequences of values compare equal, value by value.
pub open spec fn same_values(a: Seq<ValueView>, b: Seq<ValueView>) -> bool {
    a.len() == b.len() && forall|k: int|
        0 <= k < a.len() ==> value_key(#[trigger] a[k]) == value_key(b[k])
}

/// A scalar resolves exactly where its link, if it is one, has a target;
/// resolving leaves it equal in comparison: a link keeps its id, anything
/// else is as it was.
pub proof fn law_resolved_scalar(s: ScalarView, plan: ElementPlan, maps: Seq<Map<u32, usize>>)
    ensures
        resolved_scalar(s, plan, maps) is Ok <==> scalar_resolves(s, plan, maps),
        resolved_scalar(s, plan, maps) matches Ok(r) ==> scalar_key(r) == scalar_key(s),
        resolved_scalar(s, plan, maps) matches Ok(r) ==> (!(s is Link) ==> r == s),
        resolved_scalar(s, plan, maps) matches Err(e) ==> s matches ScalarView::Link(link) && plan
            matches ElementPlan::Link { label, .. } && e == (LinkErrorView::Missing {
            type_label: label@,
            id: link.spec_id().0,
        }),
{
}

proof fn lemma_resolved_scalars(
    v: Seq<ScalarView>,
    plans: Seq<ElementPlan>,
    maps: Seq<Map<u32, usize>>,
)
    ensures
        resolved_scalars(v, plans, maps) is Ok <==> scalars_resolve(v, plans, maps),
        resolved_scalars(v, plans, maps) matches Ok(r) ==> same_scalars(r, v),
    decreases v.len(),
{
    if v.len() > 0 {
        let front = v.drop_last();
        lemma_resolved_scalars(front, plans, maps);
        assert forall|k: int| 0 <= k < front.len() implies front[k] == v[k] by {}
        if v.len() <= plans.len() {
            law_resolved_scalar(v.last(), plans[v.len() - 1], maps);
        }
        if scalars_resolve(v, plans, maps) {
            assert forall|k: int| 0 <= k < front.len() && k < plans.len() implies scalar_resolves(
                #[trigger] front[k],
                plans[k],
                maps,
            ) by {
                assert(scalar_resolves(v[k], plans[k], maps));
            }
            if v.len() <= plans.len() {
                assert(scalar_resolves(v[v.len() - 1], plans[v.len() - 1], maps));
            }
        }
        if resolved_scalars(v, plans, maps) is Ok {
            assert forall|k: int| 0 <= k < v.len() && k < plans.len() implies scalar_resolves(
                #[trigger] v[k],
                plans[k],
                maps,
            ) by {
                if k < front.len() {
                    assert(scalar_resolves(front[k], plans[k], maps));
                }
            }
            let r = resolved_scalars(v, plans, maps)->Ok_0;
            let done = resolved_scalars(front, plans, maps)->Ok_0;
            assert forall|k: int| 0 <= k < r.len() implies scalar_key(#[trigger] r[k])
                == scalar_key(v[k]) by {
                if k < front.len() {
                    assert(r[k] == done[k]);
                    assert(scalar_key(done[k]) == scalar_key(front[k]));
                }
            }
        }
    }
}

/// An element resolves exactly where all its links have targets; resolving
/// leaves it equal in comparison.
pub proof fn law_resolved_element(e: ElementView, kind: KindPlan, maps: Seq<Map<u32, usize>>)
    ensures
        resolved_element(e, kind, maps) is Ok <==> element_resolves(e, kind, maps),
        resolved_element(e, kind, maps) matches Ok(r) ==> element_key(r) == element_key(e),
{
    match (e, kind) {
        (ElementView::One(s), KindPlan::One(plan)) => {
            law_resolved_scalar(s, plan, maps);
        },
        (ElementView::Tuple(v), KindPlan::Tuple(plans)) => {
            lemma_resolved_scalars(v, plans@, maps);
            if let Ok(r) = resolved_scalars(v, plans@, maps) {
                assert(r.map_values(|s: ScalarView| scalar_key(s)) =~= v.map_values(
                    |s: ScalarView| scalar_key(s),
                )) by {
                    assert forall|k: int| 0 <= k < r.len() implies scalar_key(r[k]) == scalar_key(
                        v[k],
                    ) by {
                        assert(scalar_key(r[k]) == scalar_key(v[k]));
                    }
                }
            }
        },
        _ => {},
    }
}

proof fn lemma_resolved_elements(es: Seq<ElementView>, kind: KindPlan, maps: Seq<Map<u32, usize>>)
    ensures
        resolved_elements(es, kind, maps) is Ok <==> elements_resolve(es, kind, maps),
        resolved_elements(es, kind, maps) matches Ok(r) ==> same_elements(r, es),
    decreases es.len(),
{
    if es.len() > 0 {
        let front = es.drop_last();
        lemma_resolved_elements(front, kind, maps);
        law_resolved_element(es.last(), kind, maps);
        assert forall|k: int| 0 <= k < front.len() implies front[k] == es[k] by {}
        if elements_resolve(es, kind, maps) {
            assert forall|k: int| 0 <= k < front.len() implies element_resolves(
                #[trigger] front[k],
                kind,
                maps,
            ) by {
                assert(element_resolves(es[k], kind, maps));
            }
            assert(element_resolves(es[es.len() - 1], kind, maps));
        }
        if resolved_elements(es, kind, maps) is Ok {
            assert forall|k: int| 0 <= k < es.len() implies element_resolves(
                #[trigger] es[k],
                kind,
                maps,
            ) by {
                if k < front.len() {
                    assert(element_resolves(front[k], kind, maps));
                }
            }
            let r = resolved_elements(es, kind, maps)->Ok_0;
            let done = resolved_elements(front, kind, maps)->Ok_0;
            assert forall|k: int| 0 <= k < r.len() implies element_key(#[trigger] r[k])
                == element_key(es[k]) by {
                if k < front.len() {
                    assert(r[k] == done[k]);
                    assert(element_key(done[k]) == element_key(front[k]));
                }
            }
        }
    }
}

/// A value resolves exactly where all its links have targets; resolving
/// leaves it equal in comparison.
pub proof fn law_resolved_value(v: ValueView, kind: KindPlan, maps: Seq<Map<u32, usize>>)
    ensures
        resolved_value(v, kind, maps) is Ok <==> value_resolves(v, kind, maps),
        resolved_value(v, kind, maps) matches Ok(r) ==> value_key(r) == value_key(v),
{
    match v {
        ValueView::Single(e) => {
            law_resolved_element(e, kind, maps);
        },
        ValueView::Optional(None) => {},
        ValueView::Optional(Some(e)) => {
            law_resolved_element(e, kind, maps);
        },
        ValueView::Multi(es) => {
            lemma_resolved_elements(es, kind, maps);
            if let Ok(r) = resolved_elements(es, kind, maps) {
                assert(r.map_values(|e: ElementView| element_key(e)) =~= es.map_values(
                    |e: ElementView| element_key(e),
                )) by {
                    assert forall|k: int| 0 <= k < r.len() implies element_key(r[k])
                        == element_key(es[k]) by {
                        assert(element_key(r[k]) == element_key(es[k]));
                    }
                }
            }
        },
    }
}

proof fn lemma_resolved_values(
    values: Seq<ValueView>,
    fields: Seq<FieldPlan>,
    maps: Seq<Map<u32, usize>>,
)
    ensures
        resolved_values(values, fields, maps) is Ok <==> values_resolve(values, fields, maps),
        resolved_values(values, fields, maps) matches Ok(r) ==> same_values(r, values),
    decreases values.len(),
{
    if values.len() > 0 {
        let front = values.drop_last();
        lemma_resolved_values(front, fields, maps);
        assert forall|k: int| 0 <= k < front.len() implies front[k] == values[k] by {}
        if values.len() <= fields.len() {
            law_resolved_value(values.last(), fields[values.len() - 1].kind, maps);
        }
        if values_resolve(values, fields, maps) {
            assert forall|k: int| 0 <= k < front.len() && k < fields.len() implies value_resolves(
                #[trigger] front[k],
                fields[k].kind,
                maps,
            ) by {
                assert(value_resolves(values[k], fields[k].kind, maps));
            }
            if values.len() <= fields.len() {
                assert(value_resolves(
                    values[values.len() - 1],
                    fields[values.len() - 1].kind,
                    maps,
                ));
            }
        }
        if resolved_values(values, fields, maps) is Ok {
            assert forall|k: int| 0 <= k < values.len() && k < fields.len() implies value_resolves(
                #[trigger] values[k],
                fields[k].kind,
                maps,
            ) by {
                if k < front.len() {
                    assert(value_resolves(front[k], fields[k].kind, maps));
                }
            }
            let r = resolved_values(values, fields, maps)->Ok_0;
            let done = resolved_values(front, fields, maps)->Ok_0;
            assert forall|k: int| 0 <= k < r.len() implies value_key(#[trigger] r[k]) == value_key(
                values[k],
            ) by {
                if k < front.len() {
                    assert(r[k] == done[k]);
                    assert(value_key(done[k]) == value_key(front[k]));
                }
            }
        }
    }
}

/// A row resolves exactly where every link of it has a target in the index
/// of the table that its field links to. Resolving leaves the id of the row
/// and, in comparison, every value as it was: a link keeps its id, and what
/// is no link is unchanged.
pub proof fn law_resolved_row(row: RowView, fields: Seq<FieldPlan>, maps: Seq<Map<u32, usize>>)
    ensures
        resolved_row(row, fields, maps) is Ok <==> values_resolve(row.values, fields, maps),
        resolved_row(row, fields, maps) matches Ok(r) ==> r.id == row.id && same_values(
            r.values,
            row.values,
        ),
{
    lemma_resolved_values(row.values, fields, maps);
}

/// The links of the rows of a table resolve exactly where every link of
/// every row has a target. The rows then are the rows resolved one by one.
/// Otherwise the error is that of the first row with a link that has no
/// target, and names that row by its id.
pub proof fn law_resolved_rows(
    plan: TablePlan,
    rows: Seq<RowView>,
    maps: Seq<Map<u32, usize>>,
    upto: nat,
)
    requires
        upto <= rows.len(),
    ensures
        resolved_rows(plan, rows, maps, upto) is Ok <==> forall|k: int|
            0 <= k < upto ==> values_resolve((#[trigger] rows[k]).values, plan.fields@, maps),
        resolved_rows(plan, rows, maps, upto) matches Ok(done) ==> done.len() == upto && forall|
            k: int,
        |
            0 <= k < upto ==> resolved_row(rows[k], plan.fields@, maps) == Ok::<
                RowView,
                LinkErrorView,
            >(#[trigger] done[k]),
        resolved_rows(plan, rows, maps, upto) matches Err(e) ==> exists|k: int|
            {
                &&& 0 <= k < upto
                &&& !values_resolve((#[trigger] rows[k]).values, plan.fields@, maps)
                &&& forall|j: int|
                    0 <= j < k ==> values_resolve((#[trigger] rows[j]).values, plan.fields@, maps)
                &&& resolved_row(rows[k], plan.fields@, maps) is Err
                &&& e == (ErrorView::Link {
                    workbook: plan.workbook@,
                    sheet: plan.sheet@,
                    id: rows[k].id,
                    error: resolved_row(rows[k], plan.fields@, maps)->Err_0,
                })
            },
    decreases upto,
{
    if upto > 0 {
        law_resolved_rows(plan, rows, maps, (upto - 1) as nat);
        law_resolved_row(rows[upto - 1], plan.fields@, maps);
        let before = resolved_rows(plan, rows, maps, (upto - 1) as nat);
        let now = resolved_rows(plan, rows, maps, upto);
        match before {
            Ok(done) => {
                match resolved_row(rows[upto - 1], plan.fields@, maps) {
                    Ok(row) => {
                        let all = done.push(row);
                        assert forall|k: int| 0 <= k < upto implies resolved_row(
                            rows[k],
                            plan.fields@,
                            maps,
                        ) == Ok::<RowView, LinkErrorView>(#[trigger] all[k]) by {
                            if k < upto - 1 {
                                assert(all[k] == done[k]);
                            }
                        }
                    },
                    Err(error) => {
                        let k = upto - 1;
                        assert(!values_resolve(rows[k].values, plan.fields@, maps));
                    },
                }
            },
            Err(e) => {
                let k = choose|k: int|
                    {
                        &&& 0 <= k < upto - 1
                        &&& !values_resolve((#[trigger] rows[k]).values, plan.fields@, maps)
                        &&& forall|j: int|
                            0 <= j < k ==> values_resolve(
                                (#[trigger] rows[j]).values,
                                plan.fields@,
                                maps,
                            )
                        &&& resolved_row(rows[k], plan.fields@, maps) is Err
                        &&& e == (ErrorView::Link {
                            workbook: plan.workbook@,
                            sheet: plan.sheet@,
                            id: rows[k].id,
                            error: resolved_row(rows[k], plan.fields@, maps)->Err_0,
                        })
                    };
                assert(!values_resolve(rows[k].values, plan.fields@, maps));
            },
        }
    }
}

} // verus!
