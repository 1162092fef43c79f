//! What is generated for enumerations and modules, and the plan of the
//! loading of all tables.

use crate::data::cell::{decimal_text, integer_text};
use crate::error::{Error, ErrorView};
use crate::generator::constant::{
    ConstantScalar, ConstantSchema, ScalarFloatType, ScalarSignedIntegerType,
    ScalarUnsignedIntegerType,
};
use crate::generator::constant::ConstantEntry;
use crate::generator::enumeration::{
    EnumerationAttribute, EnumerationEntry, EnumerationSchema,
};
use crate::generator::module::{EntityEntry, ModuleEntry};
use crate::generator::table::TableSchema;
use crate::generator::{find_text, lemma_position_of, position_of, Generator};
use crate::levels::{graph_of, is_leveling, is_ranking};
use crate::name::{snake_case, to_snake_case, NameView};
use crate::text::{copy_strings, join, join_spec, views};
use crate::Target;
use vstd::prelude::*;
use vstd::string::StringExecFns;

verus! {

/// What is generated for an enumeration.
#[derive(Debug, Clone, PartialEq, Eq)]
pub struct EnumerationPlan {
    /// The name of the generated type.
    pub type_ident: String,
    /// The name of the integer type that holds a discriminant.
    pub base_type: String,
    /// The variants; the discriminant of a variant is its position.
    pub variants: Vec<String>,
    /// The attributes that are put on the type on this side.
    pub attributes: Vec<String>,
    /// Whether a wire-protocol enumeration of the same discriminants is made.
    pub protocol: bool,
    /// Whether a relational enumeration type is made.
    pub queryable: bool,
    /// For each variant, its label in the relational enumeration type.
    pub sql_labels: Vec<String>,
}

/// The attributes, among the first `upto`, that are put on the type on this
/// side.
pub open spec fn targeted_attributes(attributes: Seq<EnumerationAttribute>, upto: nat) -> Seq<
    Seq<char>,
>
    decreases upto,
{
    if upto == 0 {
        Seq::empty()
    } else if attributes[upto - 1].target == Target::Server || attributes[upto - 1].target
        == Target::All {
        targeted_attributes(attributes, (upto - 1) as nat).push(attributes[upto - 1].attribute@)
    } else {
        targeted_attributes(attributes, (upto - 1) as nat)
    }
}

impl EnumerationSchema {
    /// The discriminant of the variant of that name: the position of the
    /// first variant of exactly that name.
    pub open spec fn spec_discriminant(&self, name: Seq<char>) -> Option<u32> {
        match position_of(views(self.enums@), name) {
            Some(i) => if i <= u32::MAX {
                Some(i as u32)
            } else {
                None
            },
            None => None,
        }
    }

    /// The discriminant of the variant of that name.
    pub fn discriminant_of(&self, name: &str) -> (r: Option<u32>)
        ensures
            r == self.spec_discriminant(name@),
    {
        match find_text(&self.enums, name) {
            Some(i) => if i <= u32::MAX as usize {
                Some(i as u32)
            } else {
                None
            },
            None => None,
        }
    }

    /// The variant of that discriminant.
    pub fn variant_of(&self, discriminant: u32) -> (r: Option<&String>)
        ensures
            match r {
                Some(name) => discriminant < self.enums@.len() && *name
                    == self.enums@[discriminant as int],
                None => discriminant >= self.enums@.len(),
            },
    {
        if (discriminant as usize) < self.enums.len() {
            Some(&self.enums[discriminant as usize])
        } else {
            None
        }
    }

    /// What is generated for the enumeration.
    pub fn generate_enumeration(&self) -> (r: EnumerationPlan)
        ensures
            r.type_ident@ == self.name@,
            r.base_type@ == self.base.rust_type(),
            views(r.variants@) == views(self.enums@),
            views(r.attributes@) == targeted_attributes(self.attributes@, self.attributes@.len()),
            r.protocol == self.protocol,
            r.queryable == self.queryable,
            views(r.sql_labels@) == views(self.enums@).map_values(|v: Seq<char>| snake_case(v)),
    {
        let mut attributes: Vec<String> = Vec::new();
        let mut i: usize = 0;
        assert(views(attributes@) =~= Seq::<Seq<char>>::empty());
        while i < self.attributes.len()
            invariant
                i <= self.attributes.len(),
                views(attributes@) == targeted_attributes(self.attributes@, i as nat),
            decreases self.attributes.len() - i,
        {
            if self.attributes[i].target.is_target() {
                let ghost before = views(attributes@);
                attributes.push(self.attributes[i].attribute.clone());
                assert(views(attributes@) =~= before.push(self.attributes@[i as int].attribute@));
            }
            i += 1;
        }
        let mut sql_labels: Vec<String> = Vec::new();
        let mut k: usize = 0;
        while k < self.enums.len()
            invariant
                k <= self.enums.len(),
                sql_labels@.len() == k,
                forall|j: int| 0 <= j < k ==> (#[trigger] sql_labels@[j])@ == snake_case(
                    self.enums@[j]@,
                ),
            decreases self.enums.len() - k,
        {
            sql_labels.push(to_snake_case(self.enums[k].as_str()));
            k += 1;
        }
        assert(views(sql_labels@) =~= views(self.enums@).map_values(|v: Seq<char>| snake_case(v)));
        EnumerationPlan {
            type_ident: self.name.clone(),
            base_type: String::from_str(self.base.to_rust_type()),
            variants: copy_strings(self.enums.as_slice()),
            attributes,
            protocol: self.protocol,
            queryable: self.queryable,
            sql_labels,
        }
    }
}

/// A variant is found again by its discriminant, and the discriminant of
/// the first variant of a name is found again by the name.
pub proof fn law_discriminants(schema: EnumerationSchema, name: Seq<char>)
    requires
        schema.spec_discriminant(name) is Some,
    ensures
        schema.spec_discriminant(name)->0 < schema.enums@.len(),
        schema.enums@[schema.spec_discriminant(name)->0 as int]@ == name,
        forall|j: int|
            0 <= j < schema.spec_discriminant(name)->0 ==> (#[trigger] schema.enums@[j])@ != name,
{
    lemma_position_of(views(schema.enums@), name);
    let i = position_of(views(schema.enums@), name)->0;
    assert(views(schema.enums@)[i] == schema.enums@[i]@);
    assert forall|j: int| 0 <= j < i implies (#[trigger] schema.enums@[j])@ != name by {
        assert(views(schema.enums@)[j] == schema.enums@[j]@);
    }
}

impl Generator {
    /// What is generated for a registered enumeration.
    pub fn generate_enumeration(&self, enumeration: &EnumerationEntry) -> (r: EnumerationPlan)
        ensures
            r.type_ident@ == enumeration.schema.name@,
            r.base_type@ == enumeration.schema.base.rust_type(),
            views(r.variants@) == views(enumeration.schema.enums@),
            views(r.attributes@) == targeted_attributes(
                enumeration.schema.attributes@,
                enumeration.schema.attributes@.len(),
            ),
            r.protocol == enumeration.schema.protocol,
            r.queryable == enumeration.schema.queryable,
            views(r.sql_labels@) == views(enumeration.schema.enums@).map_values(
                |v: Seq<char>| snake_case(v),
            ),
    {
        enumeration.schema.generate_enumeration()
    }

    /// What is generated for a registered constant.
    pub fn generate_constant(&self, constant: &ConstantEntry) -> (r: ConstantPlan)
        ensures
            r.name@ == constant.schema.name@,
            r.rust_type@ == constant.schema.scalar.rust_type(),
            r.literal@ == constant.schema.scalar.literal(),
            r.is_string == (constant.schema.scalar is String),
    {
        constant.schema.generate_constant()
    }
}

/// What is generated for a module: the submodules it declares, and the
/// entities whose items it hands on.
#[derive(Debug, Clone, PartialEq, Eq)]
pub struct ModulePlan {
    /// Whether the module is the root of the namespace tree, which also
    /// gets the loading of all tables.
    pub is_base: bool,
    /// The entity identifiers of all that the module declares.
    pub imports: Vec<String>,
    /// The entity identifiers of the tables, enumerations and constants.
    pub exports: Vec<String>,
}

impl Generator {
    /// Every entry of the module is the index of what it names.
    pub open spec fn entries_wf(&self, module: ModuleEntry) -> bool {
        forall|k: int|
            0 <= k < module.entries@.len() ==> match #[trigger] module.entries@[k] {
                EntityEntry::ModuleIndex(i) => i < self.modules@.len(),
                EntityEntry::TableIndex(i) => i < self.tables@.len(),
                EntityEntry::EnumerationIndex(i) => i < self.enumerations@.len(),
                EntityEntry::ConstantIndex(i) => i < self.constants@.len(),
            }
    }

    /// Every entry of every collected module is the index of an entity, or
    /// of a module that is collected or waits in the queue.
    pub open spec fn modules_wf(&self) -> bool {
        forall|a: int, k: int|
            0 <= a < self.modules@.len() && 0 <= k < self.modules@[a].entries@.len()
                ==> match #[trigger] self.modules@[a].entries@[k] {
                EntityEntry::ModuleIndex(i) => i < self.modules@.len() + self.pending@.len(),
                EntityEntry::TableIndex(i) => i < self.tables@.len(),
                EntityEntry::EnumerationIndex(i) => i < self.enumerations@.len(),
                EntityEntry::ConstantIndex(i) => i < self.constants@.len(),
            }
    }

    /// Once the queue is empty, every entry of every module is the index of
    /// what it names.
    pub proof fn lemma_collected_modules(&self, a: int)
        requires
            self.modules_wf(),
            self.pending@.len() == 0,
            0 <= a < self.modules@.len(),
        ensures
            self.entries_wf(self.modules@[a]),
    {
        assert forall|k: int| 0 <= k < self.modules@[a].entries@.len() implies match #[trigger] self.modules@[a].entries@[k] {
            EntityEntry::ModuleIndex(i) => i < self.modules@.len(),
            EntityEntry::TableIndex(i) => i < self.tables@.len(),
            EntityEntry::EnumerationIndex(i) => i < self.enumerations@.len(),
            EntityEntry::ConstantIndex(i) => i < self.constants@.len(),
        } by {}
    }

    /// The name of what an entry names.
    pub open spec fn entry_name(&self, entry: EntityEntry) -> NameView {
        match entry {
            EntityEntry::ModuleIndex(i) => self.modules@[i as int].name@,
            EntityEntry::TableIndex(i) => self.tables@[i as int].name@,
            EntityEntry::EnumerationIndex(i) => self.enumerations@[i as int].name@,
            EntityEntry::ConstantIndex(i) => self.constants@[i as int].name@,
        }
    }

    /// The entity identifiers of the first `upto` entries; with `exported`
    /// set, of those that are no modules.
    pub open spec fn entity_names(&self, entries: Seq<EntityEntry>, upto: nat, exported: bool) -> Seq<
        Seq<char>,
    >
        decreases upto,
    {
        if upto == 0 {
            Seq::empty()
        } else if exported && entries[upto - 1] is ModuleIndex {
            self.entity_names(entries, (upto - 1) as nat, exported)
        } else {
            self.entity_names(entries, (upto - 1) as nat, exported).push(
                snake_case(self.entry_name(entries[upto - 1]).name),
            )
        }
    }

    /// What is generated for a module.
    pub fn generate_module(&self, module: &ModuleEntry) -> (r: ModulePlan)
        requires
            self.entries_wf(*module),
        ensures
            r.is_base == (module.name@.name.len() == 0 && module.name@.namespace.len() == 0),
            views(r.imports@) == self.entity_names(module.entries@, module.entries@.len(), false),
            views(r.exports@) == self.entity_names(module.entries@, module.entries@.len(), true),
    {
        let mut imports: Vec<String> = Vec::new();
        let mut exports: Vec<String> = Vec::new();
        let mut k: usize = 0;
        assert(views(imports@) =~= Seq::<Seq<char>>::empty());
        assert(views(exports@) =~= Seq::<Seq<char>>::empty());
        while k < module.entries.len()
            invariant
                k <= module.entries.len(),
                self.entries_wf(*module),
                views(imports@) == self.entity_names(module.entries@, k as nat, false),
                views(exports@) == self.entity_names(module.entries@, k as nat, true),
            decreases module.entries.len() - k,
        {
            let ghost imported = views(imports@);
            let ghost exported = views(exports@);
            let entry = module.entries[k];
            let (name, export) = match entry {
                EntityEntry::ModuleIndex(i) => (&self.modules[i].name, false),
                EntityEntry::TableIndex(i) => (&self.tables[i].name, true),
                EntityEntry::EnumerationIndex(i) => (&self.enumerations[i].name, true),
                EntityEntry::ConstantIndex(i) => (&self.constants[i].name, true),
            };
            let entity = name.as_entity();
            if export {
                exports.push(entity.clone());
                assert(views(exports@) =~= exported.push(entity@));
            }
            imports.push(entity);
            assert(views(imports@) =~= imported.push(entity@));
            k += 1;
        }
        let is_base = module.name.name.as_str().is_empty() && module.name.namespace.len() == 0;
        ModulePlan { is_base, imports, exports }
    }
}

/// A concrete table as it is loaded: the type that holds its rows, the data
/// file below the data directory, and the sheet of that file.
#[derive(Debug, Clone, PartialEq, Eq)]
pub struct ConcreteLoad {
    pub table: usize,
    pub data_type: String,
    pub file: String,
    pub sheet: String,
}

/// The plan of the loading of all tables: the arenas of the abstract tables
/// are made first; then the concrete tables are loaded level by level, the
/// tables of one level side by side; then the links of all rows are
/// resolved.
#[derive(Debug, Clone, PartialEq, Eq)]
pub struct LoadPlan {
    /// The types of the abstract tables, in the order of the tables.
    pub abstract_inits: Vec<String>,
    /// The concrete tables, in the order of the tables.
    pub concrete_loads: Vec<ConcreteLoad>,
    /// The levels of all tables.
    pub levels: Vec<Vec<usize>>,
}

/// The path of a data file below the data directory: the file in the
/// directory of the namespace that holds the table.
pub open spec fn data_file_path(name: NameView, workbook: Seq<char>) -> Seq<char> {
    if join_spec(name.parent_namespace(), "/"@).len() == 0 {
        workbook
    } else {
        join_spec(name.parent_namespace(), "/"@) + "/"@ + workbook
    }
}

impl Generator {
    /// The types of the abstract tables among the first `upto` tables.
    pub open spec fn abstract_types(&self, upto: nat) -> Seq<Seq<char>>
        decreases upto,
    {
        if upto == 0 {
            Seq::empty()
        } else if self.tables@[upto - 1].schema is Abstract {
            self.abstract_types((upto - 1) as nat).push(
                self.tables@[upto - 1].name@.type_id(true),
            )
        } else {
            self.abstract_types((upto - 1) as nat)
        }
    }

    /// The indices of the concrete tables among the first `upto` tables.
    pub open spec fn concrete_tables(&self, upto: nat) -> Seq<usize>
        decreases upto,
    {
        if upto == 0 {
            Seq::empty()
        } else if self.tables@[upto - 1].schema is Concrete {
            self.concrete_tables((upto - 1) as nat).push((upto - 1) as usize)
        } else {
            self.concrete_tables((upto - 1) as nat)
        }
    }

    /// How table `t` is loaded, if it is concrete.
    pub open spec fn is_load_of(&self, load: ConcreteLoad, t: usize) -> bool {
        &&& load.table == t
        &&& t < self.tables@.len()
        &&& self.tables@[t as int].schema matches TableSchema::Concrete(schema)
        &&& load.data_type@ == self.tables@[t as int].name@.data_type_id(true)
        &&& load.file@ == data_file_path(self.tables@[t as int].name@, schema.workbook@)
        &&& load.sheet@ == schema.sheet@
    }

    /// The plan of the loading of all tables. Fails where the links of the
    /// tables cannot be resolved or run in a circle.
    pub fn generate_table_load(&self) -> (r: Result<LoadPlan, Error>)
        requires
            self.wf(),
        ensures
            match r {
                Ok(plan) => {
                    &&& self.spec_link_graph() is Ok
                    &&& is_leveling(self.spec_link_graph()->Ok_0, graph_of(plan.levels@))
                    &&& views(plan.abstract_inits@) == self.abstract_types(self.tables@.len())
                    &&& plan.concrete_loads@.len() == self.concrete_tables(self.tables@.len()).len()
                    &&& forall|k: int|
                        0 <= k < plan.concrete_loads@.len() ==> self.is_load_of(
                            #[trigger] plan.concrete_loads@[k],
                            self.concrete_tables(self.tables@.len())[k],
                        )
                },
                Err(e) => match self.spec_link_graph() {
                    Err(fault) => e@ == fault,
                    Ok(graph) => e@ == ErrorView::CircularDependency && forall|rank: Seq<nat>|
                        !is_ranking(graph, rank),
                },
            },
    {
        let levels = match self.dependency_levels() {
            Err(e) => {
                return Err(e);
            },
            Ok(levels) => levels,
        };
        let mut abstract_inits: Vec<String> = Vec::new();
        let mut concrete_loads: Vec<ConcreteLoad> = Vec::new();
        let mut t: usize = 0;
        assert(views(abstract_inits@) =~= Seq::<Seq<char>>::empty());
        while t < self.tables.len()
            invariant
                t <= self.tables.len(),
                views(abstract_inits@) == self.abstract_types(t as nat),
                concrete_loads@.len() == self.concrete_tables(t as nat).len(),
                forall|k: int|
                    0 <= k < concrete_loads@.len() ==> self.is_load_of(
                        #[trigger] concrete_loads@[k],
                        self.concrete_tables(t as nat)[k],
                    ),
            decreases self.tables.len() - t,
        {
            let table = &self.tables[t];
            let ghost inits = views(abstract_inits@);
            match &table.schema {
                TableSchema::Abstract(_) => {
                    let type_ident = table.name.as_type(true);
                    abstract_inits.push(type_ident);
                    assert(views(abstract_inits@) =~= inits.push(table.name@.type_id(true)));
                },
                TableSchema::Concrete(schema) => {
                    let mut file = join(table.name.parent_namespace(), "/");
                    if !file.as_str().is_empty() {
                        file.append("/");
                    }
                    file.append(schema.workbook.as_str());
                    let load = ConcreteLoad {
                        table: t,
                        data_type: table.name.as_data_type(true),
                        file,
                        sheet: schema.sheet.clone(),
                    };
                    proof {
                        assert(self.is_load_of(load, t));
                    }
                    concrete_loads.push(load);
                },
            }
            t += 1;
        }
        Ok(LoadPlan { abstract_inits, concrete_loads, levels })
    }
}

/// What is generated for a constant: a binding of a name to a literal of a
/// type.
#[derive(Debug, Clone, PartialEq, Eq)]
pub struct ConstantPlan {
    pub name: String,
    /// The name of the type of the constant.
    pub rust_type: String,
    /// The value as it is written: an integer in decimal, a floating-point
    /// number as it was given, a string without quotes.
    pub literal: String,
    /// Whether the literal is a string.
    pub is_string: bool,
}

impl ConstantScalar {
    /// The name of the type of the constant.
    pub open spec fn rust_type(&self) -> Seq<char> {
        match *self {
            ConstantScalar::SignedInteger { scalar_type, .. } => match scalar_type {
                ScalarSignedIntegerType::Int8 => "i8"@,
                ScalarSignedIntegerType::Int16 => "i16"@,
                ScalarSignedIntegerType::Int32 => "i32"@,
                ScalarSignedIntegerType::Int64 => "i64"@,
            },
            ConstantScalar::UnsignedInteger { scalar_type, .. } => match scalar_type {
                ScalarUnsignedIntegerType::Uint8 => "u8"@,
                ScalarUnsignedIntegerType::Uint16 => "u16"@,
                ScalarUnsignedIntegerType::Uint32 => "u32"@,
                ScalarUnsignedIntegerType::Uint64 => "u64"@,
            },
            ConstantScalar::Float { scalar_type, .. } => match scalar_type {
                ScalarFloatType::Float32 => "f32"@,
                ScalarFloatType::Float64 => "f64"@,
            },
            ConstantScalar::String { .. } => "&str"@,
        }
    }

    /// The value as it is written.
    pub open spec fn literal(&self) -> Seq<char> {
        match *self {
            ConstantScalar::SignedInteger { value, .. } => decimal_text(value as int),
            ConstantScalar::UnsignedInteger { value, .. } => decimal_text(value as int),
            ConstantScalar::Float { value, .. } => value@,
            ConstantScalar::String { value, .. } => value@,
        }
    }
}

impl ConstantSchema {
    /// What is generated for the constant.
    pub fn generate_constant(&self) -> (r: ConstantPlan)
        ensures
            r.name@ == self.name@,
            r.rust_type@ == self.scalar.rust_type(),
            r.literal@ == self.scalar.literal(),
            r.is_string == (self.scalar is String),
    {
        let (rust_type, literal, is_string) = match &self.scalar {
            ConstantScalar::SignedInteger { scalar_type, value } => (
                match scalar_type {
                    ScalarSignedIntegerType::Int8 => "i8",
                    ScalarSignedIntegerType::Int16 => "i16",
                    ScalarSignedIntegerType::Int32 => "i32",
                    ScalarSignedIntegerType::Int64 => "i64",
                },
                integer_text(*value as i128),
                false,
            ),
            ConstantScalar::UnsignedInteger { scalar_type, value } => (
                match scalar_type {
                    ScalarUnsignedIntegerType::Uint8 => "u8",
                    ScalarUnsignedIntegerType::Uint16 => "u16",
                    ScalarUnsignedIntegerType::Uint32 => "u32",
                    ScalarUnsignedIntegerType::Uint64 => "u64",
                },
                integer_text(*value as i128),
                false,
            ),
            ConstantScalar::Float { scalar_type, value } => (
                match scalar_type {
                    ScalarFloatType::Float32 => "f32",
                    ScalarFloatType::Float64 => "f64",
                },
                value.clone(),
                false,
            ),
            ConstantScalar::String { value, .. } => ("&str", value.clone(), true),
        };
        ConstantPlan {
            name: self.name.clone(),
            rust_type: String::from_str(rust_type),
            literal,
            is_string,
        }
    }
}

} // verus!
