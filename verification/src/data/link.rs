//! The resolution of links: once the tables are loaded, every link is
//! looked up in the index of its target table and takes the place of the
//! target row.

use crate::data::error::{LinkError, LinkErrorView};
use crate::data::plan::{ElementPlan, FieldPlan, KindPlan};
use crate::data::value::{
    elements_view, scalars_view, values_view, Element, ElementView, Row, RowView, Scalar,
    ScalarView, Value, ValueView,
};
use crate::data::{DataId, Link, RowRef};
use std::collections::HashMap;
use vstd::prelude::*;
use vstd::string::StringExecFns;

verus! {

broadcast use vstd::std_specs::hash::group_hash_axioms;

/// What can be the target of a link: something that finds the place of a
/// row by the row's id.
pub trait Linkable {
    /// The place of the row with that id.
    spec fn spec_find(&self, id: u32) -> Option<usize>;

    /// The place of the row with that id.
    fn find(&self, id: &DataId) -> (r: Option<usize>)
        ensures
            r == self.spec_find(id.0),
    ;
}

impl Linkable for HashMap<u32, usize> {
    open spec fn spec_find(&self, id: u32) -> Option<usize> {
        if self@.contains_key(id) {
            Some(self@[id])
        } else {
            None
        }
    }

    fn find(&self, id: &DataId) -> (r: Option<usize>) {
        match self.get(&id.0) {
            Some(k) => Some(*k),
            None => None,
        }
    }
}

/// The maps of a sequence of indexes.
pub open spec fn indexes_view(indexes: Seq<HashMap<u32, usize>>) -> Seq<Map<u32, usize>> {
    indexes.map_values(|m: HashMap<u32, usize>| m@)
}

/// The link with its target looked up in the index of table `table`.
pub open spec fn resolved_link(
    link: Link,
    table: usize,
    label: Seq<char>,
    indexes: Seq<Map<u32, usize>>,
) -> Result<Link, LinkErrorView> {
    let id = link.spec_id();
    if table < indexes.len() && indexes[table as int].contains_key(id.0) {
        Ok(Link::Resolved { id, target: RowRef { table, slot: indexes[table as int][id.0] } })
    } else {
        Err(LinkErrorView::Missing { type_label: label, id: id.0 })
    }
}

/// A scalar with its link resolved, where it is a link.
pub open spec fn resolved_scalar(s: ScalarView, plan: ElementPlan, indexes: Seq<Map<u32, usize>>) -> Result<
    ScalarView,
    LinkErrorView,
> {
    match (s, plan) {
        (ScalarView::Link(link), ElementPlan::Link { table, label }) => match resolved_link(
            link,
            table,
            label@,
            indexes,
        ) {
            Ok(l) => Ok(ScalarView::Link(l)),
            Err(e) => Err(e),
        },
        _ => Ok(s),
    }
}

/// The components of a tuple with their links resolved, each by the plan at
/// its position. The first link that cannot be resolved decides the error.
pub open spec fn resolved_scalars(
    v: Seq<ScalarView>,
    plans: Seq<ElementPlan>,
    indexes: Seq<Map<u32, usize>>,
) -> Result<Seq<ScalarView>, LinkErrorView>
    decreases v.len(),
{
    if v.len() == 0 {
        Ok(Seq::empty())
    } else {
        match resolved_scalars(v.drop_last(), plans, indexes) {
            Err(e) => Err(e),
            Ok(done) => if v.len() <= plans.len() {
                match resolved_scalar(v.last(), plans[v.len() - 1], indexes) {
                    Ok(s) => Ok(done.push(s)),
                    Err(e) => Err(e),
                }
            } else {
                Ok(done.push(v.last()))
            },
        }
    }
}

/// An element with its links resolved.
pub open spec fn resolved_element(e: ElementView, kind: KindPlan, indexes: Seq<Map<u32, usize>>) -> Result<
    ElementView,
    LinkErrorView,
> {
    match (e, kind) {
        (ElementView::One(s), KindPlan::One(plan)) => match resolved_scalar(s, plan, indexes) {
            Ok(s) => Ok(ElementView::One(s)),
            Err(e) => Err(e),
        },
        (ElementView::Tuple(v), KindPlan::Tuple(plans)) => match resolved_scalars(
            v,
            plans@,
            indexes,
        ) {
            Ok(v) => Ok(ElementView::Tuple(v)),
            Err(e) => Err(e),
        },
        _ => Ok(e),
    }
}

/// The elements of a list with their links resolved.
pub open spec fn resolved_elements(
    v: Seq<ElementView>,
    kind: KindPlan,
    indexes: Seq<Map<u32, usize>>,
) -> Result<Seq<ElementView>, LinkErrorView>
    decreases v.len(),
{
    if v.len() == 0 {
        Ok(Seq::empty())
    } else {
        match resolved_elements(v.drop_last(), kind, indexes) {
            Err(e) => Err(e),
            Ok(done) => match resolved_element(v.last(), kind, indexes) {
                Ok(e) => Ok(done.push(e)),
                Err(e) => Err(e),
            },
        }
    }
}

/// A value with its links resolved.
pub open spec fn resolved_value(v: ValueView, kind: KindPlan, indexes: Seq<Map<u32, usize>>) -> Result<
    ValueView,
    LinkErrorView,
> {
    match v {
        ValueView::Single(e) => match resolved_element(e, kind, indexes) {
            Ok(e) => Ok(ValueView::Single(e)),
            Err(e) => Err(e),
        },
        ValueView::Optional(None) => Ok(v),
        ValueView::Optional(Some(e)) => match resolved_element(e, kind, indexes) {
            Ok(e) => Ok(ValueView::Optional(Some(e))),
            Err(e) => Err(e),
        },
        ValueView::Multi(es) => match resolved_elements(es, kind, indexes) {
            Ok(es) => Ok(ValueView::Multi(es)),
            Err(e) => Err(e),
        },
    }
}

/// The values of a row with their links resolved, each by the field at its
/// position.
pub open spec fn resolved_values(
    v: Seq<ValueView>,
    fields: Seq<FieldPlan>,
    indexes: Seq<Map<u32, usize>>,
) -> Result<Seq<ValueView>, LinkErrorView>
    decreases v.len(),
{
    if v.len() == 0 {
        Ok(Seq::empty())
    } else {
        match resolved_values(v.drop_last(), fields, indexes) {
            Err(e) => Err(e),
            Ok(done) => if v.len() <= fields.len() {
                match resolved_value(v.last(), fields[v.len() - 1].kind, indexes) {
                    Ok(x) => Ok(done.push(x)),
                    Err(e) => Err(e),
                }
            } else {
                Ok(done.push(v.last()))
            },
        }
    }
}

/// A row with its links resolved.
pub open spec fn resolved_row(row: RowView, fields: Seq<FieldPlan>, indexes: Seq<Map<u32, usize>>) -> Result<
    RowView,
    LinkErrorView,
> {
    match resolved_values(row.values, fields, indexes) {
        Ok(values) => Ok(RowView { id: row.id, values }),
        Err(e) => Err(e),
    }
}

impl Link {
    /// Resolves the link: looks its id up in `target`, the index of table
    /// `table`, and takes the place found.
    pub fn init<T: Linkable>(&mut self, target: &T, table: usize, label: &str) -> (r: Result<
        (),
        LinkError,
    >)
        ensures
            match r {
                Ok(_) => target.spec_find(old(self).spec_id().0) is Some && *final(self)
                    == (Link::Resolved {
                    id: old(self).spec_id(),
                    target: RowRef { table, slot: target.spec_find(old(self).spec_id().0)->0 },
                }),
                Err(e) => target.spec_find(old(self).spec_id().0) is None && *final(self) == *old(
                    self,
                ) && e@ == (LinkErrorView::Missing {
                    type_label: label@,
                    id: old(self).spec_id().0,
                }),
            },
    {
        let id = self.id();
        match target.find(&id) {
            Some(slot) => {
                *self = Link::Resolved { id, target: RowRef { table, slot } };
                Ok(())
            },
            None => Err(LinkError::Missing { type_label: String::from_str(label), id }),
        }
    }
}

/// The items of `v` in the opposite order.
pub fn reversed<T>(v: Vec<T>) -> (r: Vec<T>)
    ensures
        r@.len() == v@.len(),
        forall|k: int| 0 <= k < r@.len() ==> #[trigger] r@[k] == v@[v@.len() - 1 - k],
{
    let ghost all = v@;
    let mut rest = v;
    let mut out: Vec<T> = Vec::new();
    while rest.len() > 0
        invariant
            out@.len() + rest@.len() == all.len(),
            forall|k: int| 0 <= k < rest@.len() ==> #[trigger] rest@[k] == all[k],
            forall|k: int| 0 <= k < out@.len() ==> #[trigger] out@[k] == all[all.len() - 1 - k],
        decreases rest.len(),
    {
        let item = rest.pop().unwrap();
        out.push(item);
    }
    out
}

/// A scalar with its link resolved.
fn resolve_scalar(s: Scalar, plan: &ElementPlan, indexes: &Vec<HashMap<u32, usize>>) -> (r: Result<
    Scalar,
    LinkError,
>)
    ensures
        match r {
            Ok(v) => resolved_scalar(s@, *plan, indexes_view(indexes@)) == Ok::<
                ScalarView,
                LinkErrorView,
            >(v@),
            Err(e) => resolved_scalar(s@, *plan, indexes_view(indexes@)) == Err::<
                ScalarView,
                LinkErrorView,
            >(e@),
        },
{
    match (s, plan) {
        (Scalar::Link(link), ElementPlan::Link { table, label }) => {
            let mut link = link;
            if *table >= indexes.len() {
                return Err(LinkError::Missing { type_label: label.clone(), id: link.id() });
            }
            assert(indexes_view(indexes@)[*table as int] == indexes@[*table as int]@);
            match link.init(&indexes[*table], *table, label.as_str()) {
                Ok(_) => Ok(Scalar::Link(link)),
                Err(e) => Err(e),
            }
        },
        (s, _) => Ok(s),
    }
}

/// A fault among the first components is the fault of the tuple.
proof fn lemma_scalars_prefix(
    v: Seq<ScalarView>,
    plans: Seq<ElementPlan>,
    indexes: Seq<Map<u32, usize>>,
    upto: int,
)
    requires
        0 <= upto <= v.len(),
        resolved_scalars(v.take(upto), plans, indexes) is Err,
    ensures
        resolved_scalars(v, plans, indexes) == resolved_scalars(v.take(upto), plans, indexes),
    decreases v.len() - upto,
{
    if upto < v.len() {
        assert(v.take(upto + 1).drop_last() == v.take(upto));
        lemma_scalars_prefix(v, plans, indexes, upto + 1);
    } else {
        assert(v.take(upto) == v);
    }
}

proof fn lemma_elements_prefix(
    v: Seq<ElementView>,
    kind: KindPlan,
    indexes: Seq<Map<u32, usize>>,
    upto: int,
)
    requires
        0 <= upto <= v.len(),
        resolved_elements(v.take(upto), kind, indexes) is Err,
    ensures
        resolved_elements(v, kind, indexes) == resolved_elements(v.take(upto), kind, indexes),
    decreases v.len() - upto,
{
    if upto < v.len() {
        assert(v.take(upto + 1).drop_last() == v.take(upto));
        lemma_elements_prefix(v, kind, indexes, upto + 1);
    } else {
        assert(v.take(upto) == v);
    }
}

proof fn lemma_values_prefix(
    v: Seq<ValueView>,
    fields: Seq<FieldPlan>,
    indexes: Seq<Map<u32, usize>>,
    upto: int,
)
    requires
        0 <= upto <= v.len(),
        resolved_values(v.take(upto), fields, indexes) is Err,
    ensures
        resolved_values(v, fields, indexes) == resolved_values(v.take(upto), fields, indexes),
    decreases v.len() - upto,
{
    if upto < v.len() {
        assert(v.take(upto + 1).drop_last() == v.take(upto));
        lemma_values_prefix(v, fields, indexes, upto + 1);
    } else {
        assert(v.take(upto) == v);
    }
}

/// An element with its links resolved.
fn resolve_element(e: Element, kind: &KindPlan, indexes: &Vec<HashMap<u32, usize>>) -> (r: Result<
    Element,
    LinkError,
>)
    ensures
        match r {
            Ok(v) => resolved_element(e@, *kind, indexes_view(indexes@)) == Ok::<
                ElementView,
                LinkErrorView,
            >(v@),
            Err(x) => resolved_element(e@, *kind, indexes_view(indexes@)) == Err::<
                ElementView,
                LinkErrorView,
            >(x@),
        },
{
    let ghost whole = e@;
    match (e, kind) {
        (Element::One(s), KindPlan::One(plan)) => match resolve_scalar(s, plan, indexes) {
            Ok(s) => Ok(Element::One(s)),
            Err(x) => Err(x),
        },
        (Element::Tuple(v), KindPlan::Tuple(plans)) => {
            let ghost all = scalars_view(v@);
            let ghost maps = indexes_view(indexes@);
            let mut rest = reversed(v);
            let total = rest.len();
            let mut done: Vec<Scalar> = Vec::new();
            assert(scalars_view(done@) == Seq::<ScalarView>::empty());
            assert(all.take(0) == Seq::<ScalarView>::empty());
            while rest.len() > 0
                invariant
                    maps == indexes_view(indexes@),
                    whole == e@,
                    resolved_element(whole, *kind, maps) == (match resolved_scalars(
                        all,
                        plans@,
                        maps,
                    ) {
                        Ok(v) => Ok::<ElementView, LinkErrorView>(ElementView::Tuple(v)),
                        Err(x) => Err(x),
                    }),
                    all.len() == total,
                    done.len() + rest.len() == total,
                    forall|k: int|
                        0 <= k < rest@.len() ==> (#[trigger] rest@[k])@ == all[total - 1 - k],
                    rest@.len() <= total,
                    resolved_scalars(all.take(done.len() as int), plans@, maps) == Ok::<
                        Seq<ScalarView>,
                        LinkErrorView,
                    >(scalars_view(done@)),
                decreases rest.len(),
            {
                let position = done.len();
                let s = rest.pop().unwrap();
                proof {
                    assert(s@ == all[position as int]);
                    assert(all.take(position + 1).drop_last() == all.take(position as int));
                    assert(all.take(position + 1).last() == all[position as int]);
                }
                let next = if position < plans.len() {
                    match resolve_scalar(s, &plans[position], indexes) {
                        Ok(s) => s,
                        Err(x) => {
                            proof {
                                assert(resolved_scalars(all.take(position + 1), plans@, maps)
                                    == Err::<Seq<ScalarView>, LinkErrorView>(x@));
                                lemma_scalars_prefix(all, plans@, maps, position + 1);
                            }
                            return Err(x);
                        },
                    }
                } else {
                    s
                };
                let ghost before = scalars_view(done@);
                done.push(next);
                assert(scalars_view(done@) == before.push(next@));
            }
            assert(all.take(total as int) == all);
            Ok(Element::Tuple(done))
        },
        (e, _) => Ok(e),
    }
}

/// A value with its links resolved.
fn resolve_value(v: Value, kind: &KindPlan, indexes: &Vec<HashMap<u32, usize>>) -> (r: Result<
    Value,
    LinkError,
>)
    ensures
        match r {
            Ok(x) => resolved_value(v@, *kind, indexes_view(indexes@)) == Ok::<
                ValueView,
                LinkErrorView,
            >(x@),
            Err(x) => resolved_value(v@, *kind, indexes_view(indexes@)) == Err::<
                ValueView,
                LinkErrorView,
            >(x@),
        },
{
    let ghost whole = v@;
    match v {
        Value::Single(e) => match resolve_element(e, kind, indexes) {
            Ok(e) => Ok(Value::Single(e)),
            Err(x) => Err(x),
        },
        Value::Optional(None) => Ok(Value::Optional(None)),
        Value::Optional(Some(e)) => match resolve_element(e, kind, indexes) {
            Ok(e) => Ok(Value::Optional(Some(e))),
            Err(x) => Err(x),
        },
        Value::Multi(es) => {
            let ghost all = elements_view(es@);
            let ghost maps = indexes_view(indexes@);
            let mut rest = reversed(es);
            let total = rest.len();
            let mut done: Vec<Element> = Vec::new();
            assert(elements_view(done@) == Seq::<ElementView>::empty());
            assert(all.take(0) == Seq::<ElementView>::empty());
            while rest.len() > 0
                invariant
                    maps == indexes_view(indexes@),
                    whole == v@,
                    whole == ValueView::Multi(all),
                    all.len() == total,
                    done.len() + rest.len() == total,
                    forall|k: int|
                        0 <= k < rest@.len() ==> (#[trigger] rest@[k])@ == all[total - 1 - k],
                    resolved_elements(all.take(done.len() as int), *kind, maps) == Ok::<
                        Seq<ElementView>,
                        LinkErrorView,
                    >(elements_view(done@)),
                decreases rest.len(),
            {
                let position = done.len();
                let e = rest.pop().unwrap();
                proof {
                    assert(e@ == all[position as int]);
                    assert(all.take(position + 1).drop_last() == all.take(position as int));
                    assert(all.take(position + 1).last() == all[position as int]);
                }
                match resolve_element(e, kind, indexes) {
                    Ok(next) => {
                        let ghost before = elements_view(done@);
                        done.push(next);
                        assert(elements_view(done@) == before.push(next@));
                    },
                    Err(x) => {
                        proof {
                            assert(resolved_elements(all.take(position + 1), *kind, maps) == Err::<
                                Seq<ElementView>,
                                LinkErrorView,
                            >(x@));
                            lemma_elements_prefix(all, *kind, maps, position + 1);
                        }
                        return Err(x);
                    },
                }
            }
            assert(all.take(total as int) == all);
            Ok(Value::Multi(done))
        },
    }
}

/// A row with its links resolved: every link of the row has taken the place
/// that the index of its target table gives for its id. Fails at the first
/// link whose id the index does not hold.
pub fn resolve_row(row: Row, fields: &Vec<FieldPlan>, indexes: &Vec<HashMap<u32, usize>>) -> (r:
    Result<Row, LinkError>)
    ensures
        match r {
            Ok(x) => resolved_row(row@, fields@, indexes_view(indexes@)) == Ok::<
                RowView,
                LinkErrorView,
            >(x@),
            Err(x) => resolved_row(row@, fields@, indexes_view(indexes@)) == Err::<
                RowView,
                LinkErrorView,
            >(x@),
        },
{
    let ghost whole = row@;
    let ghost all = values_view(row.values@);
    let ghost maps = indexes_view(indexes@);
    let id = row.id;
    let mut rest = reversed(row.values);
    let total = rest.len();
    let mut done: Vec<Value> = Vec::new();
    assert(values_view(done@) == Seq::<ValueView>::empty());
    assert(all.take(0) == Seq::<ValueView>::empty());
    while rest.len() > 0
        invariant
            maps == indexes_view(indexes@),
            whole == row@,
            whole.values == all,
            all.len() == total,
            done.len() + rest.len() == total,
            forall|k: int| 0 <= k < rest@.len() ==> (#[trigger] rest@[k])@ == all[total - 1 - k],
            resolved_values(all.take(done.len() as int), fields@, maps) == Ok::<
                Seq<ValueView>,
                LinkErrorView,
            >(values_view(done@)),
        decreases rest.len(),
    {
        let position = done.len();
        let v = rest.pop().unwrap();
        proof {
            assert(v@ == all[position as int]);
            assert(all.take(position + 1).drop_last() == all.take(position as int));
            assert(all.take(position + 1).last() == all[position as int]);
        }
        let next = if position < fields.len() {
            match resolve_value(v, &fields[position].kind, indexes) {
                Ok(x) => x,
                Err(x) => {
                    proof {
                        assert(resolved_values(all.take(position + 1), fields@, maps) == Err::<
                            Seq<ValueView>,
                            LinkErrorView,
                        >(x@));
                        lemma_values_prefix(all, fields@, maps, position + 1);
                    }
                    return Err(x);
                },
            }
        } else {
            v
        };
        let ghost before = values_view(done@);
        done.push(next);
        assert(values_view(done@) == before.push(next@));
    }
    assert(all.take(total as int) == all);
    Ok(Row { id, values: done })
}

} // verus!
