//! What is generated for a table: the plan of its loader, made from its
//! effective fields once their attributes are found sound and the types
//! they refer to are found.

use crate::data::parse::{scalar_label, scalar_label_text};
use crate::data::store::{chain_ends, hierarchy_wf, plans_wf};
use crate::data::plan::{
    element_plans_view, field_plans_view, Cardinality, ElementPlan, ElementPlanView, FieldPlan,
    FieldPlanView, KindPlan, KindPlanView, TablePlan, TablePlanView,
};
use crate::error::{AttributeFault, Error, ErrorView};
use crate::generator::table::{
    Constraint,
    Field,
    FieldKind,
    TableEntry,
    TableSchema,
    TableSchematic,
    TUPLE_TYPES_MAX_COUNT,
};
use crate::generator::{lemma_position_of, Generator};
use crate::name::{Name, NameView};
use crate::text::{copy_strings, join, join_spec, views};
use vstd::prelude::*;
use vstd::string::StringExecFns;

verus! {

/// Whether a tuple has a tuple among its components.
pub open spec fn has_nested(types: Seq<FieldKind>) -> bool {
    exists|i: int| 0 <= i < types.len() && (#[trigger] types[i]) is Tuple
}

/// Whether one of the constraints is the unique constraint.
pub open spec fn has_unique(constraints: Seq<Constraint>) -> bool {
    exists|i: int| 0 <= i < constraints.len() && #[trigger] constraints[i] == Constraint::Unique
}

impl FieldKind {
    /// A tuple has two to four components, none of them a tuple.
    pub open spec fn well_formed(&self) -> bool {
        *self matches FieldKind::Tuple { types } ==> !has_nested(types@) && 2 <= types@.len()
            <= TUPLE_TYPES_MAX_COUNT
    }

    /// The name of the type of a kind that is no tuple.
    pub open spec fn element_rust_type(&self) -> Seq<char> {
        match *self {
            FieldKind::Scalar { scalar_type } => scalar_label(scalar_type),
            FieldKind::Enum { enum_type } => "crate::"@ + enum_type@,
            FieldKind::Link { link_type } => "Link<crate::"@ + link_type@ + ">"@,
            FieldKind::Tuple { .. } => Seq::empty(),
        }
    }

    /// The name of the type that holds a value of the kind.
    pub open spec fn rust_type(&self) -> Seq<char> {
        match *self {
            FieldKind::Tuple { types } => "("@ + join_spec(
                types@.map_values(|k: FieldKind| k.element_rust_type()),
                ", "@,
            ) + ")"@,
            _ => self.element_rust_type(),
        }
    }

    /// Whether the kind is a link or a tuple with a link among its
    /// components.
    pub open spec fn spec_has_link(&self) -> bool {
        match *self {
            FieldKind::Link { .. } => true,
            FieldKind::Tuple { types } => exists|i: int|
                0 <= i < types@.len() && (#[trigger] types@[i]) is Link,
            _ => false,
        }
    }

    /// The name of the type of a kind that is no tuple.
    fn element_to_rust_type(&self) -> (r: String)
        ensures
            r@ == self.element_rust_type(),
    {
        match self {
            FieldKind::Scalar { scalar_type } => String::from_str(scalar_label_text(*scalar_type)),
            FieldKind::Enum { enum_type } => {
                let mut out = String::from_str("crate::");
                out.append(enum_type.as_str());
                out
            },
            FieldKind::Link { link_type } => {
                let mut out = String::from_str("Link<crate::");
                out.append(link_type.as_str());
                out.append(">");
                out
            },
            FieldKind::Tuple { .. } => String::new(),
        }
    }

    /// The name of the type that holds a value of the kind.
    pub fn to_rust_type(&self) -> (r: String)
        requires
            self.well_formed(),
        ensures
            r@ == self.rust_type(),
    {
        match self {
            FieldKind::Tuple { types } => {
                let parts = to_tuple_type_strings(types);
                let mut out = String::from_str("(");
                out.append(join(parts.as_slice(), ", ").as_str());
                out.append(")");
                out
            },
            _ => self.element_to_rust_type(),
        }
    }

    /// Whether the kind is a link or a tuple with a link among its
    /// components.
    pub fn has_link(&self) -> (r: bool)
        requires
            *self matches FieldKind::Tuple { types } ==> !has_nested(types@),
        ensures
            r == self.spec_has_link(),
    {
        match self {
            FieldKind::Scalar { .. } => false,
            FieldKind::Enum { .. } => false,
            FieldKind::Link { .. } => true,
            FieldKind::Tuple { types } => {
                let mut i: usize = 0;
                while i < types.len()
                    invariant
                        i <= types.len(),
                        *self == (FieldKind::Tuple { types: *types }),
                        forall|k: int| 0 <= k < i ==> !((#[trigger] types@[k]) is Link),
                    decreases types.len() - i,
                {
                    match &types[i] {
                        FieldKind::Link { .. } => {
                            assert(types@[i as int] is Link);
                            return true;
                        },
                        _ => {},
                    }
                    i += 1;
                }
                false
            },
        }
    }
}

/// The names of the types of the components of a tuple.
pub fn to_tuple_type_strings(fields: &Vec<FieldKind>) -> (r: Vec<String>)
    requires
        !has_nested(fields@),
        2 <= fields@.len() <= TUPLE_TYPES_MAX_COUNT,
    ensures
        views(r@) == fields@.map_values(|k: FieldKind| k.element_rust_type()),
{
    let mut out: Vec<String> = Vec::new();
    let mut i: usize = 0;
    while i < fields.len()
        invariant
            i <= fields.len(),
            out.len() == i,
            forall|k: int| 0 <= k < i ==> (#[trigger] out@[k])@ == fields@[k].element_rust_type(),
        decreases fields.len() - i,
    {
        out.push(fields[i].element_to_rust_type());
        i += 1;
    }
    assert(views(out@) =~= fields@.map_values(|k: FieldKind| k.element_rust_type()));
    out
}

impl Field {
    /// Whether the field may be absent.
    pub open spec fn is_optional(&self) -> bool {
        self.optional == Some(true)
    }

    /// Whether the field holds a list of values.
    pub open spec fn is_multi(&self) -> bool {
        self.multi == Some(true)
    }

    /// The constraints on the field.
    pub open spec fn spec_constraints(&self) -> Seq<Constraint> {
        match self.constraints {
            Some(c) => c@,
            None => Seq::empty(),
        }
    }

    /// How often the field holds a value.
    pub open spec fn cardinality(&self) -> Cardinality {
        if self.is_optional() {
            Cardinality::Optional
        } else if self.is_multi() {
            Cardinality::Multi
        } else {
            Cardinality::Single
        }
    }

    /// What is wrong with the attributes of the field, if anything is: a
    /// field cannot be optional and multi, nor multi and unique; a tuple has
    /// no tuple among its components, and two to four components.
    pub open spec fn attribute_fault(&self) -> Option<AttributeFault> {
        if self.is_optional() && self.is_multi() {
            Some(AttributeFault::OptionalAndMulti)
        } else if self.is_multi() && has_unique(self.spec_constraints()) {
            Some(AttributeFault::UniqueAndMulti)
        } else {
            match self.kind {
                FieldKind::Tuple { types } => if has_nested(types@) {
                    Some(AttributeFault::NestedTuple)
                } else if types@.len() < 2 || types@.len() > TUPLE_TYPES_MAX_COUNT {
                    Some(AttributeFault::TupleArity)
                } else {
                    None
                },
                _ => None,
            }
        }
    }

    /// What is wrong with the attributes of the field, if anything is.
    pub fn check_attributes(&self) -> (r: Option<AttributeFault>)
        ensures
            r == self.attribute_fault(),
    {
        let optional = match self.optional {
            Some(b) => b,
            None => false,
        };
        let multi = match self.multi {
            Some(b) => b,
            None => false,
        };
        if optional && multi {
            return Some(AttributeFault::OptionalAndMulti);
        }
        if multi {
            if let Some(constraints) = &self.constraints {
                let mut i: usize = 0;
                while i < constraints.len()
                    invariant
                        i <= constraints.len(),
                        self.constraints == Some(*constraints),
                        self.is_multi(),
                        !self.is_optional(),
                        forall|k: int|
                            0 <= k < i ==> #[trigger] constraints@[k] != Constraint::Unique,
                    decreases constraints.len() - i,
                {
                    match constraints[i] {
                        Constraint::Unique => {
                            assert(constraints@[i as int] == Constraint::Unique);
                            return Some(AttributeFault::UniqueAndMulti);
                        },
                        _ => {},
                    }
                    i += 1;
                }
            }
        }
        assert(!(self.is_multi() && has_unique(self.spec_constraints())));
        match &self.kind {
            FieldKind::Tuple { types } => {
                let mut i: usize = 0;
                while i < types.len()
                    invariant
                        i <= types.len(),
                        self.kind == (FieldKind::Tuple { types: *types }),
                        !(self.is_optional() && self.is_multi()),
                        !(self.is_multi() && has_unique(self.spec_constraints())),
                        forall|k: int| 0 <= k < i ==> !((#[trigger] types@[k]) is Tuple),
                    decreases types.len() - i,
                {
                    match &types[i] {
                        FieldKind::Tuple { .. } => {
                            assert(types@[i as int] is Tuple);
                            return Some(AttributeFault::NestedTuple);
                        },
                        _ => {},
                    }
                    i += 1;
                }
                if types.len() < 2 || types.len() > TUPLE_TYPES_MAX_COUNT {
                    return Some(AttributeFault::TupleArity);
                }
                None
            },
            _ => None,
        }
    }
}

impl Generator {
    /// The plan of a scalar position of kind `kind` in a table `table`: a
    /// link is resolved to the table it names, an enumeration to its
    /// variants.
    pub open spec fn element_plan(&self, table: Seq<char>, kind: FieldKind) -> Result<
        ElementPlanView,
        ErrorView,
    > {
        match kind {
            FieldKind::Scalar { scalar_type } => Ok(ElementPlanView::Scalar(scalar_type)),
            FieldKind::Enum { enum_type } => match self.spec_enumeration_index(enum_type@) {
                Some(i) => Ok(
                    ElementPlanView::Enum {
                        label: enum_type@,
                        variants: views(self.enumerations@[i].schema.enums@),
                    },
                ),
                None => Err(ErrorView::UnknownEnumeration { table, target: enum_type@ }),
            },
            FieldKind::Link { link_type } => match self.spec_table_index(link_type@) {
                Some(i) => Ok(ElementPlanView::Link { table: i as usize, label: link_type@ }),
                None => Err(ErrorView::UnknownLinkTarget { table, target: link_type@ }),
            },
            FieldKind::Tuple { .. } => Err(
                ErrorView::InvalidAttribute {
                    field: Seq::empty(),
                    fault: AttributeFault::NestedTuple,
                },
            ),
        }
    }

    /// The plans of the components of a tuple. The first component whose
    /// type is not found decides the error.
    pub open spec fn element_plans(&self, table: Seq<char>, types: Seq<FieldKind>) -> Result<
        Seq<ElementPlanView>,
        ErrorView,
    >
        decreases types.len(),
    {
        if types.len() == 0 {
            Ok(Seq::empty())
        } else {
            match self.element_plans(table, types.drop_last()) {
                Err(e) => Err(e),
                Ok(found) => match self.element_plan(table, types.last()) {
                    Err(e) => Err(e),
                    Ok(plan) => Ok(found.push(plan)),
                },
            }
        }
    }

    /// The plan of what a field holds once.
    pub open spec fn kind_plan(&self, table: Seq<char>, kind: FieldKind) -> Result<
        KindPlanView,
        ErrorView,
    > {
        match kind {
            FieldKind::Tuple { types } => match self.element_plans(table, types@) {
                Ok(plans) => Ok(KindPlanView::Tuple(plans)),
                Err(e) => Err(e),
            },
            _ => match self.element_plan(table, kind) {
                Ok(plan) => Ok(KindPlanView::One(plan)),
                Err(e) => Err(e),
            },
        }
    }

    /// The plan of a field that is read from column `column`.
    pub open spec fn field_plan(&self, table: Seq<char>, field: Field, column: usize) -> Result<
        FieldPlanView,
        ErrorView,
    > {
        match field.attribute_fault() {
            Some(fault) => Err(ErrorView::InvalidAttribute { field: field.name@, fault }),
            None => match self.kind_plan(table, field.kind) {
                Err(e) => Err(e),
                Ok(kind) => Ok(
                    FieldPlanView {
                        name: field.name@,
                        column,
                        kind,
                        cardinality: field.cardinality(),
                        constraints: field.spec_constraints(),
                        label: field.kind.rust_type(),
                    },
                ),
            },
        }
    }

    /// The plans of those of the first `upto` fields that are loaded on
    /// this side, each read from the column at the field's position. The
    /// attributes of every field are held sound, whatever side it is for. The
    /// first field that is at fault decides the error.
    pub open spec fn field_plans(&self, table: Seq<char>, fields: Seq<Field>, upto: nat) -> Result<
        Seq<FieldPlanView>,
        ErrorView,
    >
        decreases upto,
    {
        if upto == 0 {
            Ok(Seq::empty())
        } else {
            match self.field_plans(table, fields, (upto - 1) as nat) {
                Err(e) => Err(e),
                Ok(found) => match fields[upto - 1].attribute_fault() {
                    Some(fault) => Err(
                        ErrorView::InvalidAttribute { field: fields[upto - 1].name@, fault },
                    ),
                    None => if !(fields[upto - 1].target == crate::Target::Server || fields[upto
                        - 1].target == crate::Target::All) {
                        Ok(found)
                    } else {
                        match self.field_plan(table, fields[upto - 1], (upto - 1) as usize) {
                            Err(e) => Err(e),
                            Ok(plan) => Ok(found.push(plan)),
                        }
                    },
                },
            }
        }
    }

    /// The plan of a table of the given name and schema: its effective
    /// fields decide the number of columns, those of them that are loaded
    /// on this side are planned, and the table it extends is looked up.
    pub open spec fn table_plan(&self, name: NameView, schema: TableSchema) -> Result<
        TablePlanView,
        ErrorView,
    > {
        match self.all_fields(schema) {
            Err(e) => Err(e),
            Ok(all) => match self.field_plans(schema.spec_name(), all, all.len()) {
                Err(e) => Err(e),
                Ok(fields) => Ok(
                    TablePlanView {
                        label: name.type_id(true),
                        concrete: schema is Concrete,
                        workbook: match schema {
                            TableSchema::Concrete(c) => c.workbook@,
                            TableSchema::Abstract(_) => Seq::empty(),
                        },
                        sheet: match schema {
                            TableSchema::Concrete(c) => c.sheet@,
                            TableSchema::Abstract(_) => Seq::empty(),
                        },
                        fields_count: all.len() as usize,
                        fields,
                        parent: match schema.spec_extend() {
                            None => None,
                            Some(p) => Some(self.spec_table_index(p@)->0 as usize),
                        },
                    },
                ),
            },
        }
    }

    proof fn lemma_element_plans_prefix(&self, table: Seq<char>, types: Seq<FieldKind>, upto: int)
        requires
            0 <= upto <= types.len(),
            self.element_plans(table, types.take(upto)) is Err,
        ensures
            self.element_plans(table, types) == self.element_plans(table, types.take(upto)),
        decreases types.len() - upto,
    {
        if upto < types.len() {
            assert(types.take(upto + 1).drop_last() == types.take(upto));
            self.lemma_element_plans_prefix(table, types, upto + 1);
        } else {
            assert(types.take(upto) == types);
        }
    }

    proof fn lemma_field_plans_prefix(
        &self,
        table: Seq<char>,
        fields: Seq<Field>,
        upto: nat,
        total: nat,
    )
        requires
            upto <= total,
            self.field_plans(table, fields, upto) is Err,
        ensures
            self.field_plans(table, fields, total) == self.field_plans(table, fields, upto),
        decreases total - upto,
    {
        if upto < total {
            self.lemma_field_plans_prefix(table, fields, upto + 1, total);
        }
    }

    /// The plan of a scalar position.
    fn plan_element(&self, table: &str, kind: &FieldKind) -> (r: Result<ElementPlan, Error>)
        requires
            self.wf(),
        ensures
            match r {
                Ok(plan) => self.element_plan(table@, *kind) == Ok::<ElementPlanView, ErrorView>(
                    plan@,
                ),
                Err(e) => self.element_plan(table@, *kind) == Err::<ElementPlanView, ErrorView>(e@),
            },
    {
        match kind {
            FieldKind::Scalar { scalar_type } => Ok(ElementPlan::Scalar(*scalar_type)),
            FieldKind::Enum { enum_type } => match self.enumeration_index(enum_type.as_str()) {
                Some(i) => Ok(
                    ElementPlan::Enum {
                        label: enum_type.clone(),
                        variants: copy_strings(self.enumerations[i].schema.enums.as_slice()),
                    },
                ),
                None => Err(
                    Error::UnknownEnumeration {
                        table: String::from_str(table),
                        target: enum_type.clone(),
                    },
                ),
            },
            FieldKind::Link { link_type } => match self.table_index(link_type.as_str()) {
                Some(i) => Ok(ElementPlan::Link { table: i, label: link_type.clone() }),
                None => Err(
                    Error::UnknownLinkTarget {
                        table: String::from_str(table),
                        target: link_type.clone(),
                    },
                ),
            },
            FieldKind::Tuple { .. } => Err(
                Error::InvalidAttribute { field: String::new(), fault: AttributeFault::NestedTuple },
            ),
        }
    }

    /// The plan of what a field holds once.
    fn plan_kind(&self, table: &str, kind: &FieldKind) -> (r: Result<KindPlan, Error>)
        requires
            self.wf(),
        ensures
            match r {
                Ok(plan) => self.kind_plan(table@, *kind) == Ok::<KindPlanView, ErrorView>(plan@),
                Err(e) => self.kind_plan(table@, *kind) == Err::<KindPlanView, ErrorView>(e@),
            },
    {
        match kind {
            FieldKind::Tuple { types } => {
                let mut plans: Vec<ElementPlan> = Vec::new();
                let mut i: usize = 0;
                assert(element_plans_view(plans@) == Seq::<ElementPlanView>::empty());
                while i < types.len()
                    invariant
                        i <= types.len(),
                        self.wf(),
                        *kind == (FieldKind::Tuple { types: *types }),
                        self.element_plans(table@, types@.take(i as int)) == Ok::<
                            Seq<ElementPlanView>,
                            ErrorView,
                        >(element_plans_view(plans@)),
                    decreases types.len() - i,
                {
                    proof {
                        assert(types@.take(i + 1).drop_last() == types@.take(i as int));
                        assert(types@.take(i + 1).last() == types@[i as int]);
                    }
                    match self.plan_element(table, &types[i]) {
                        Err(e) => {
                            proof {
                                self.lemma_element_plans_prefix(table@, types@, i + 1);
                            }
                            return Err(e);
                        },
                        Ok(plan) => {
                            let ghost before = element_plans_view(plans@);
                            plans.push(plan);
                            assert(element_plans_view(plans@) == before.push(plan@));
                        },
                    }
                    i += 1;
                }
                assert(types@.take(types.len() as int) == types@);
                Ok(KindPlan::Tuple(plans))
            },
            _ => match self.plan_element(table, kind) {
                Ok(plan) => Ok(KindPlan::One(plan)),
                Err(e) => Err(e),
            },
        }
    }

    /// The plan of a field that is read from column `column`.
    pub fn plan_field(&self, table: &str, field: &Field, column: usize) -> (r: Result<
        FieldPlan,
        Error,
    >)
        requires
            self.wf(),
        ensures
            match r {
                Ok(plan) => self.field_plan(table@, *field, column) == Ok::<
                    FieldPlanView,
                    ErrorView,
                >(plan@),
                Err(e) => self.field_plan(table@, *field, column) == Err::<
                    FieldPlanView,
                    ErrorView,
                >(e@),
            },
    {
        if let Some(fault) = field.check_attributes() {
            return Err(Error::InvalidAttribute { field: field.name.clone(), fault });
        }
        let kind = match self.plan_kind(table, &field.kind) {
            Err(e) => {
                return Err(e);
            },
            Ok(kind) => kind,
        };
        let optional = match field.optional {
            Some(b) => b,
            None => false,
        };
        let multi = match field.multi {
            Some(b) => b,
            None => false,
        };
        let cardinality = if optional {
            Cardinality::Optional
        } else if multi {
            Cardinality::Multi
        } else {
            Cardinality::Single
        };
        let mut constraints: Vec<Constraint> = Vec::new();
        if let Some(given) = &field.constraints {
            let mut i: usize = 0;
            while i < given.len()
                invariant
                    i <= given.len(),
                    constraints@ == given@.take(i as int),
                decreases given.len() - i,
            {
                constraints.push(given[i]);
                assert(given@.take(i + 1) == given@.take(i as int).push(given@[i as int]));
                i += 1;
            }
            assert(given@.take(given.len() as int) == given@);
        }
        Ok(
            FieldPlan {
                name: field.name.clone(),
                column,
                kind,
                cardinality,
                constraints,
                label: field.kind.to_rust_type(),
            },
        )
    }

    /// The plan of a table of the given name and schema.
    pub fn generate_table_plan(&self, name: &Name, schema: &TableSchema) -> (r: Result<
        TablePlan,
        Error,
    >)
        requires
            self.wf(),
        ensures
            match r {
                Ok(plan) => self.table_plan(name@, *schema) == Ok::<TablePlanView, ErrorView>(
                    plan@,
                ) && plan.wf() && (plan.parent matches Some(p) ==> p < self.tables@.len()),
                Err(e) => self.table_plan(name@, *schema) == Err::<TablePlanView, ErrorView>(e@),
            },
    {
        let all = match self.get_table_all_fields(schema) {
            Err(e) => {
                return Err(e);
            },
            Ok(all) => all,
        };
        let ghost fields = all@.map_values(|f: &Field| *f);
        let mut plans: Vec<FieldPlan> = Vec::new();
        let mut i: usize = 0;
        assert(field_plans_view(plans@) == Seq::<FieldPlanView>::empty());
        while i < all.len()
            invariant
                i <= all.len(),
                self.wf(),
                fields == all@.map_values(|f: &Field| *f),
                self.all_fields(*schema) == Ok::<Seq<Field>, ErrorView>(fields),
                forall|k: int| 0 <= k < plans@.len() ==> (#[trigger] plans@[k]).column < all.len(),
                self.field_plans(schema.spec_name(), fields, i as nat) == Ok::<
                    Seq<FieldPlanView>,
                    ErrorView,
                >(field_plans_view(plans@)),
            decreases all.len() - i,
        {
            let field = all[i];
            assert(fields[i as int] == *field);
            if let Some(fault) = field.check_attributes() {
                proof {
                    self.lemma_field_plans_prefix(
                        schema.spec_name(),
                        fields,
                        (i + 1) as nat,
                        fields.len(),
                    );
                }
                return Err(Error::InvalidAttribute { field: field.name.clone(), fault });
            }
            if field.target.is_target() {
                match self.plan_field(schema.name(), field, i) {
                    Err(e) => {
                        proof {
                            self.lemma_field_plans_prefix(
                                schema.spec_name(),
                                fields,
                                (i + 1) as nat,
                                fields.len(),
                            );
                        }
                        return Err(e);
                    },
                    Ok(plan) => {
                        let ghost before = field_plans_view(plans@);
                        plans.push(plan);
                        assert(field_plans_view(plans@) == before.push(plan@));
                    },
                }
            }
            i += 1;
        }
        let parent = match schema.extend() {
            None => None,
            Some(p) => {
                proof {
                    lemma_position_of(views(self.table_indices@), p@);
                }
                self.table_index(p.as_str())
            },
        };
        let (concrete, workbook, sheet) = match schema {
            TableSchema::Concrete(c) => (true, c.workbook.clone(), c.sheet.clone()),
            TableSchema::Abstract(_) => (false, String::new(), String::new()),
        };
        Ok(
            TablePlan {
                label: name.as_type(true),
                concrete,
                workbook,
                sheet,
                fields_count: all.len(),
                fields: plans,
                parent,
            },
        )
    }
}

/// The views of a sequence of table plans.
pub open spec fn table_plans_view(v: Seq<TablePlan>) -> Seq<TablePlanView> {
    v.map_values(|p: TablePlan| p@)
}

impl Generator {
    /// The plan of table `t`, which must not extend a concrete table.
    pub open spec fn checked_table_plan(&self, t: int) -> Result<TablePlanView, ErrorView> {
        match self.table_plan(self.tables@[t].name@, self.tables@[t].schema) {
            Err(e) => Err(e),
            Ok(plan) => match plan.parent {
                Some(p) => if self.tables@[p as int].schema is Concrete {
                    Err(
                        ErrorView::ExtendsConcrete {
                            table: self.tables@[t].schema.spec_name(),
                            parent: self.tables@[t].schema.spec_extend()->0@,
                        },
                    )
                } else {
                    Ok(plan)
                },
                None => Ok(plan),
            },
        }
    }

    /// The plans of the first `upto` tables. The first table that is at
    /// fault decides the error.
    pub open spec fn table_plans(&self, upto: nat) -> Result<Seq<TablePlanView>, ErrorView>
        decreases upto,
    {
        if upto == 0 {
            Ok(Seq::empty())
        } else {
            match self.table_plans((upto - 1) as nat) {
                Err(e) => Err(e),
                Ok(found) => match self.checked_table_plan(upto - 1) {
                    Err(e) => Err(e),
                    Ok(plan) => Ok(found.push(plan)),
                },
            }
        }
    }

    /// The table that the plan of table `k` names as the table above.
    pub open spec fn plan_parent(&self, k: int) -> Option<usize> {
        match self.tables@[k].schema.spec_extend() {
            None => None,
            Some(p) => Some(self.spec_table_index(p@)->0 as usize),
        }
    }

    /// Where the fields of the ancestors of a table can be had, the way up
    /// from the table ends.
    proof fn lemma_chain_ends(&self, plans: Seq<TablePlan>, t: int, fuel: nat)
        requires
            self.table_indices@.len() == self.tables@.len(),
            plans.len() == self.tables@.len(),
            plans.len() <= usize::MAX,
            0 <= t < plans.len(),
            forall|k: int| 0 <= k < plans.len() ==> (#[trigger] plans[k]).parent == self.plan_parent(k),
            self.inherited_fields(self.tables@[t].schema.spec_extend(), fuel) is Ok,
        ensures
            chain_ends(plans, t as usize, fuel),
        decreases fuel,
    {
        assert(plans[t].parent == self.plan_parent(t));
        if let Some(p) = self.tables@[t].schema.spec_extend() {
            lemma_position_of(views(self.table_indices@), p@);
            let i = self.spec_table_index(p@)->0;
            assert(self.table_indices@.len() == views(self.table_indices@).len());
            assert(0 <= i < plans.len());
            assert(plans[t].parent == Some(i as usize));
            assert(plans[i].parent == self.plan_parent(i));
            self.lemma_chain_ends(plans, i, (fuel - 1) as nat);
        }
    }

    proof fn lemma_table_plans_prefix(&self, upto: nat, total: nat)
        requires
            upto <= total,
            self.table_plans(upto) is Err,
        ensures
            self.table_plans(total) == self.table_plans(upto),
        decreases total - upto,
    {
        if upto < total {
            self.lemma_table_plans_prefix(upto + 1, total);
        }
    }

    /// The plan of a registered table, as its loader is generated from it.
    pub fn generate_table(&self, table: &TableEntry) -> (r: Result<TablePlan, Error>)
        requires
            self.wf(),
        ensures
            match r {
                Ok(plan) => self.table_plan(table.name@, table.schema) == Ok::<
                    TablePlanView,
                    ErrorView,
                >(plan@) && plan.wf() && (plan.parent matches Some(p) ==> p < self.tables@.len()),
                Err(e) => self.table_plan(table.name@, table.schema) == Err::<
                    TablePlanView,
                    ErrorView,
                >(e@),
            },
    {
        self.generate_table_plan(&table.name, &table.schema)
    }

    /// The plans of all tables, by the index of the table. Every plan reads
    /// from columns that a row has, and a table extends an abstract table if
    /// it extends one.
    pub fn generate_table_plans(&self) -> (r: Result<Vec<TablePlan>, Error>)
        requires
            self.wf(),
        ensures
            match r {
                Ok(plans) => self.table_plans(self.tables@.len()) == Ok::<
                    Seq<TablePlanView>,
                    ErrorView,
                >(table_plans_view(plans@)) && plans@.len() == self.tables@.len() && plans_wf(
                    plans@,
                ) && hierarchy_wf(plans@),
                Err(e) => self.table_plans(self.tables@.len()) == Err::<
                    Seq<TablePlanView>,
                    ErrorView,
                >(e@),
            },
    {
        let mut plans: Vec<TablePlan> = Vec::new();
        let mut t: usize = 0;
        assert(table_plans_view(plans@) == Seq::<TablePlanView>::empty());
        while t < self.tables.len()
            invariant
                t <= self.tables.len(),
                self.wf(),
                plans@.len() == t,
                plans_wf(plans@),
                forall|k: int|
                    0 <= k < t ==> (#[trigger] plans@[k]).concrete == (self.tables@[k].schema
                        is Concrete),
                forall|k: int|
                    0 <= k < t ==> (#[trigger] plans@[k]).parent == self.plan_parent(k)
                        && self.all_fields(self.tables@[k].schema) is Ok,
                forall|k: int|
                    0 <= k < t ==> ((#[trigger] plans@[k]).parent matches Some(p) ==> p
                        < self.tables@.len() && !(self.tables@[p as int].schema is Concrete)),
                self.table_plans(t as nat) == Ok::<Seq<TablePlanView>, ErrorView>(
                    table_plans_view(plans@),
                ),
            decreases self.tables.len() - t,
        {
            let table = &self.tables[t];
            let plan = match self.generate_table(table) {
                Err(e) => {
                    proof {
                        self.lemma_table_plans_prefix((t + 1) as nat, self.tables@.len());
                    }
                    return Err(e);
                },
                Ok(plan) => plan,
            };
            if let Some(p) = plan.parent {
                if self.tables[p].schema.is_concrete() {
                    let e = Error::ExtendsConcrete {
                        table: String::from_str(table.schema.name()),
                        parent: match table.schema.extend() {
                            Some(parent) => parent.clone(),
                            None => String::new(),
                        },
                    };
                    proof {
                        assert(self.checked_table_plan(t as int) == Err::<
                            TablePlanView,
                            ErrorView,
                        >(e@));
                        self.lemma_table_plans_prefix((t + 1) as nat, self.tables@.len());
                    }
                    return Err(e);
                }
            }
            let ghost before = table_plans_view(plans@);
            plans.push(plan);
            assert(table_plans_view(plans@) == before.push(plan@));
            t += 1;
        }
        proof {
            assert forall|k: int| 0 <= k < plans@.len() implies ((#[trigger] plans@[k]).parent
                matches Some(p) ==> p < plans@.len() && !plans@[p as int].concrete) && chain_ends(
                plans@,
                k as usize,
                plans@.len(),
            ) by {
                if let Some(p) = plans@[k].parent {
                    assert(plans@[p as int].concrete == (self.tables@[p as int].schema is Concrete));
                }
                assert(self.all_fields(self.tables@[k].schema) is Ok);
                self.lemma_chain_ends(plans@, k, plans@.len());
            }
        }
        Ok(plans)
    }
}

} // verus!
