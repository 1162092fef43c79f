//! The link graph over the tables: which table links to which.

use crate::error::{AttributeFault, Error, ErrorView};
use crate::generator::table::{Field, FieldKind, TableSchema, TableSchematic};
use crate::generator::Generator;
use crate::levels::{dependency_levels, graph_of, graph_wf, is_leveling, is_ranking};
use vstd::prelude::*;
use vstd::string::StringExecFns;

verus! {

/// Why the link targets of a field cannot be had.
pub enum LinkFault {
    /// The named type is linked to but is no registered table.
    Unknown(Seq<char>),
    /// A tuple has a tuple among its components.
    Nested,
}

impl LinkFault {
    /// The error that the fault makes in a field `field` of a table `table`.
    pub open spec fn error(self, table: Seq<char>, field: Seq<char>) -> ErrorView {
        match self {
            LinkFault::Unknown(t) => ErrorView::UnknownLinkTarget { table, target: t },
            LinkFault::Nested => ErrorView::InvalidAttribute {
                field,
                fault: AttributeFault::NestedTuple,
            },
        }
    }
}

impl Generator {
    /// The tables that the components of a tuple link to, in order.
    pub open spec fn component_targets(&self, types: Seq<FieldKind>) -> Result<
        Seq<usize>,
        LinkFault,
    >
        decreases types.len(),
    {
        if types.len() == 0 {
            Ok(Seq::empty())
        } else {
            match self.component_targets(types.drop_last()) {
                Err(e) => Err(e),
                Ok(found) => match types.last() {
                    FieldKind::Tuple { .. } => Err(LinkFault::Nested),
                    FieldKind::Link { link_type } => match self.spec_table_index(link_type@) {
                        None => Err(LinkFault::Unknown(link_type@)),
                        Some(i) => Ok(found.push(i as usize)),
                    },
                    _ => Ok(found),
                },
            }
        }
    }

    /// The tables that a field kind links to: the target of a link, and the
    /// targets of the links among the components of a tuple.
    pub open spec fn kind_targets(&self, kind: FieldKind) -> Result<Seq<usize>, LinkFault> {
        match kind {
            FieldKind::Link { link_type } => match self.spec_table_index(link_type@) {
                None => Err(LinkFault::Unknown(link_type@)),
                Some(i) => Ok(seq![i as usize]),
            },
            FieldKind::Tuple { types } => self.component_targets(types@),
            _ => Ok(Seq::empty()),
        }
    }

    /// The tables that `fields` link to, in the order of the fields. The
    /// first field whose targets cannot be had decides the error, which names
    /// `table`.
    pub open spec fn fields_targets(&self, table: Seq<char>, fields: Seq<Field>) -> Result<
        Seq<usize>,
        ErrorView,
    >
        decreases fields.len(),
    {
        if fields.len() == 0 {
            Ok(Seq::empty())
        } else {
            match self.fields_targets(table, fields.drop_last()) {
                Err(e) => Err(e),
                Ok(found) => match self.kind_targets(fields.last().kind) {
                    Err(fault) => Err(fault.error(table, fields.last().name@)),
                    Ok(more) => Ok(found + more),
                },
            }
        }
    }

    /// The tables that a table links to through its effective fields.
    pub open spec fn table_targets(&self, schema: TableSchema) -> Result<Seq<usize>, ErrorView> {
        match self.all_fields(schema) {
            Err(e) => Err(e),
            Ok(fields) => self.fields_targets(schema.spec_name(), fields),
        }
    }

    /// The link graph of the first `n` tables, or the error of the first
    /// table whose targets cannot be had.
    pub open spec fn link_graph_upto(&self, n: nat) -> Result<Seq<Seq<usize>>, ErrorView>
        decreases n,
    {
        if n == 0 {
            Ok(Seq::empty())
        } else {
            match self.link_graph_upto((n - 1) as nat) {
                Err(e) => Err(e),
                Ok(graph) => match self.table_targets(self.tables[n - 1].schema) {
                    Err(e) => Err(e),
                    Ok(targets) => Ok(graph.push(targets)),
                },
            }
        }
    }

    /// The link graph: for each table, by index, the tables it links to.
    pub open spec fn spec_link_graph(&self) -> Result<Seq<Seq<usize>>, ErrorView> {
        self.link_graph_upto(self.tables@.len())
    }

    /// Appends to `found` the tables that the kind of `field` links to.
    fn targets_of_kind(&self, table: &str, field: &Field, found: &mut Vec<usize>) -> (r: Result<
        (),
        Error,
    >)
        requires
            self.table_indices.len() == self.tables.len(),
            forall|k: int| 0 <= k < old(found)@.len() ==> old(found)@[k] < self.tables.len(),
        ensures
            forall|k: int| 0 <= k < final(found)@.len() ==> final(found)@[k] < self.tables.len(),
            match r {
                Ok(_) => self.kind_targets(field.kind) is Ok && final(found)@ == old(found)@
                    + self.kind_targets(field.kind)->Ok_0,
                Err(e) => self.kind_targets(field.kind) is Err && e@ == self.kind_targets(
                    field.kind,
                )->Err_0.error(table@, field.name@),
            },
    {
        match &field.kind {
            FieldKind::Link { link_type } => {
                proof {
                    crate::generator::lemma_position_of(
                        crate::text::views(self.table_indices@),
                        link_type@,
                    );
                }
                match self.table_index(link_type.as_str()) {
                    None => Err(
                        Error::UnknownLinkTarget {
                            table: String::from_str(table),
                            target: link_type.clone(),
                        },
                    ),
                    Some(i) => {
                        found.push(i);
                        assert(found@ == old(found)@ + seq![i]);
                        Ok(())
                    },
                }
            },
            FieldKind::Tuple { types } => {
                let ghost start = found@;
                let mut c: usize = 0;
                while c < types.len()
                    invariant
                        c <= types.len(),
                        self.table_indices.len() == self.tables.len(),
                        forall|k: int| 0 <= k < found@.len() ==> found@[k] < self.tables.len(),
                        self.kind_targets(field.kind) == self.component_targets(types@),
                        self.component_targets(types@.take(c as int)) is Ok,
                        found@ == start + self.component_targets(types@.take(c as int))->Ok_0,
                    decreases types.len() - c,
                {
                    proof {
                        assert(types@.take(c + 1).drop_last() == types@.take(c as int));
                        assert(types@.take(c + 1).last() == types@[c as int]);
                    }
                    match &types[c] {
                        FieldKind::Tuple { .. } => {
                            proof {
                                assert(self.component_targets(types@.take(c + 1)) == Err::<
                                    Seq<usize>,
                                    LinkFault,
                                >(LinkFault::Nested));
                                self.lemma_component_fault(types@, c + 1);
                            }
                            return Err(
                                Error::InvalidAttribute {
                                    field: field.name.clone(),
                                    fault: AttributeFault::NestedTuple,
                                },
                            );
                        },
                        FieldKind::Link { link_type } => {
                            proof {
                                crate::generator::lemma_position_of(
                                    crate::text::views(self.table_indices@),
                                    link_type@,
                                );
                            }
                            match self.table_index(link_type.as_str()) {
                                None => {
                                    proof {
                                        assert(self.component_targets(types@.take(c + 1)) == Err::<
                                            Seq<usize>,
                                            LinkFault,
                                        >(LinkFault::Unknown(link_type@)));
                                        self.lemma_component_fault(types@, c + 1);
                                    }
                                    return Err(
                                        Error::UnknownLinkTarget {
                                            table: String::from_str(table),
                                            target: link_type.clone(),
                                        },
                                    );
                                },
                                Some(i) => {
                                    let ghost so_far = self.component_targets(
                                        types@.take(c as int),
                                    )->Ok_0;
                                    found.push(i);
                                    assert(found@ == start + so_far.push(i));
                                },
                            }
                        },
                        _ => {},
                    }
                    c += 1;
                }
                assert(types@.take(types.len() as int) == types@);
                Ok(())
            },
            _ => {
                assert(found@ == old(found)@ + Seq::<usize>::empty());
                Ok(())
            },
        }
    }

    /// A fault among the first components is the fault of the tuple.
    proof fn lemma_component_fault(&self, types: Seq<FieldKind>, upto: int)
        requires
            0 <= upto <= types.len(),
            self.component_targets(types.take(upto)) is Err,
        ensures
            self.component_targets(types) == self.component_targets(types.take(upto)),
        decreases types.len() - upto,
    {
        if upto < types.len() {
            assert(types.take(upto + 1).drop_last() == types.take(upto));
            self.lemma_component_fault(types, upto + 1);
        } else {
            assert(types.take(upto) == types);
        }
    }
}

impl Generator {
    /// A fault among the first fields is the fault of all the fields.
    proof fn lemma_fields_fault(&self, table: Seq<char>, fields: Seq<Field>, upto: int)
        requires
            0 <= upto <= fields.len(),
            self.fields_targets(table, fields.take(upto)) is Err,
        ensures
            self.fields_targets(table, fields) == self.fields_targets(table, fields.take(upto)),
        decreases fields.len() - upto,
    {
        if upto < fields.len() {
            assert(fields.take(upto + 1).drop_last() == fields.take(upto));
            self.lemma_fields_fault(table, fields, upto + 1);
        } else {
            assert(fields.take(upto) == fields);
        }
    }

    /// A fault among the first tables is the fault of the graph.
    proof fn lemma_graph_fault(&self, upto: nat, total: nat)
        requires
            upto <= total,
            self.link_graph_upto(upto) is Err,
        ensures
            self.link_graph_upto(total) == self.link_graph_upto(upto),
        decreases total - upto,
    {
        if upto < total {
            self.lemma_graph_fault(upto + 1, total);
        }
    }

    /// The tables that a table links to through its effective fields, in the
    /// order of the fields.
    pub fn table_links(&self, schema: &TableSchema) -> (r: Result<Vec<usize>, Error>)
        requires
            self.wf(),
        ensures
            match r {
                Ok(targets) => self.table_targets(*schema) == Ok::<Seq<usize>, ErrorView>(targets@)
                    && forall|k: int| 0 <= k < targets@.len() ==> targets@[k] < self.tables.len(),
                Err(e) => self.table_targets(*schema) == Err::<Seq<usize>, ErrorView>(e@),
            },
    {
        let fields = match self.get_table_all_fields(schema) {
            Err(e) => {
                return Err(e);
            },
            Ok(fields) => fields,
        };
        let ghost all = fields@.map_values(|f: &Field| *f);
        let mut found: Vec<usize> = Vec::new();
        let mut i: usize = 0;
        while i < fields.len()
            invariant
                i <= fields.len(),
                self.wf(),
                all == fields@.map_values(|f: &Field| *f),
                self.all_fields(*schema) == Ok::<Seq<Field>, ErrorView>(all),
                forall|k: int| 0 <= k < found@.len() ==> found@[k] < self.tables.len(),
                self.fields_targets(schema.spec_name(), all.take(i as int)) == Ok::<
                    Seq<usize>,
                    ErrorView,
                >(found@),
            decreases fields.len() - i,
        {
            proof {
                assert(all.take(i + 1).drop_last() == all.take(i as int));
                assert(all.take(i + 1).last() == *fields@[i as int]);
            }
            match self.targets_of_kind(schema.name(), fields[i], &mut found) {
                Err(e) => {
                    proof {
                        assert(self.fields_targets(schema.spec_name(), all.take(i + 1)) == Err::<
                            Seq<usize>,
                            ErrorView,
                        >(e@));
                        self.lemma_fields_fault(schema.spec_name(), all, i + 1);
                    }
                    return Err(e);
                },
                Ok(_) => {},
            }
            i += 1;
        }
        assert(all.take(fields.len() as int) == all);
        Ok(found)
    }

    /// The link graph: for each table, by index, the tables it links to.
    pub fn link_graph(&self) -> (r: Result<Vec<Vec<usize>>, Error>)
        requires
            self.wf(),
        ensures
            match r {
                Ok(deps) => self.spec_link_graph() == Ok::<Seq<Seq<usize>>, ErrorView>(
                    graph_of(deps@),
                ) && deps@.len() == self.tables@.len() && graph_wf(graph_of(deps@)),
                Err(e) => self.spec_link_graph() == Err::<Seq<Seq<usize>>, ErrorView>(e@),
            },
    {
        let mut deps: Vec<Vec<usize>> = Vec::new();
        let mut i: usize = 0;
        assert(graph_of(deps@) == Seq::<Seq<usize>>::empty());
        while i < self.tables.len()
            invariant
                i <= self.tables.len(),
                self.wf(),
                deps@.len() == i,
                self.link_graph_upto(i as nat) == Ok::<Seq<Seq<usize>>, ErrorView>(graph_of(deps@)),
                forall|a: int, k: int|
                    0 <= a < deps@.len() && 0 <= k < deps@[a]@.len() ==> (#[trigger] deps@[a]@[k])
                        < self.tables.len(),
            decreases self.tables.len() - i,
        {
            match self.table_links(&self.tables[i].schema) {
                Err(e) => {
                    proof {
                        self.lemma_graph_fault((i + 1) as nat, self.tables@.len());
                    }
                    return Err(e);
                },
                Ok(targets) => {
                    let ghost so_far = graph_of(deps@);
                    deps.push(targets);
                    assert(graph_of(deps@) == so_far.push(targets@));
                },
            }
            i += 1;
        }
        assert forall|a: int, k: int|
            0 <= a < graph_of(deps@).len() && 0 <= k < graph_of(deps@)[a].len() implies (
        #[trigger] graph_of(deps@)[a][k]) < graph_of(deps@).len() by {
            assert(graph_of(deps@)[a][k] == deps@[a]@[k]);
        }
        Ok(deps)
    }

    /// The levels in which the tables can be loaded: every table stands in
    /// one level, after all the tables it links to. Fails where the links
    /// cannot be resolved or run in a circle.
    pub fn dependency_levels(&self) -> (r: Result<Vec<Vec<usize>>, Error>)
        requires
            self.wf(),
        ensures
            match r {
                Ok(levels) => self.spec_link_graph() is Ok && is_leveling(
                    self.spec_link_graph()->Ok_0,
                    graph_of(levels@),
                ),
                Err(e) => match self.spec_link_graph() {
                    Err(fault) => e@ == fault,
                    Ok(graph) => e@ == ErrorView::CircularDependency && forall|rank: Seq<nat>|
                        !is_ranking(graph, rank),
                },
            },
    {
        let deps = match self.link_graph() {
            Err(e) => {
                return Err(e);
            },
            Ok(deps) => deps,
        };
        dependency_levels(&deps)
    }
}

} // verus!
