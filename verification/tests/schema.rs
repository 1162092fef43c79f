use data_generator::collect::{data_file_base, declaration_name, Declared};
use data_generator::data::cell::Cell;
use data_generator::data::plan::{Cardinality, ElementPlan, KindPlan};
use data_generator::data::store::{AbstractRow, DataStore};
use data_generator::data::DataId;
use data_generator::error::{AttributeFault, Error};
use data_generator::generate::{ConcreteLoad, ModulePlan};
use data_generator::generator::constant::{
    ConstantScalar, ConstantSchema, ScalarFloatType, ScalarSignedIntegerType, ScalarStringType,
    ScalarUnsignedIntegerType,
};
use data_generator::generator::enumeration::{
    EnumerationAttribute, EnumerationBase, EnumerationSchema,
};
use data_generator::generator::module::{EntityEntry, ModuleEntry};
use data_generator::generator::table::{
    AbstractTableSchema, ConcreteTableSchema, Constraint, Field, FieldKind, ScalarAllType,
    TableSchema, TableSchematic,
};
use data_generator::generator::{find_text, Config, Generator};
use data_generator::name::Name;
use data_generator::plan::to_tuple_type_strings;
use data_generator::Target;

fn config() -> Config {
    Config {
        schema_dir: "schema".to_string(),
        src_dir: "src".to_string(),
        gen_dir: "src/data".to_string(),
        protocol_gen_dir: "protocol".to_string(),
        sql_gen_dir: "sql".to_string(),
        verbose: false,
        dry_run: true,
    }
}

fn field(name: &str, kind: FieldKind) -> Field {
    Field {
        name: name.to_string(),
        target: Target::All,
        kind,
        optional: None,
        multi: None,
        constraints: None,
    }
}

fn scalar(t: ScalarAllType) -> FieldKind {
    FieldKind::Scalar { scalar_type: t }
}

fn link(target: &str) -> FieldKind {
    FieldKind::Link { link_type: target.to_string() }
}

fn tuple_of(n: usize) -> FieldKind {
    FieldKind::Tuple { types: (0..n).map(|_| scalar(ScalarAllType::Bool)).collect() }
}

fn id_field() -> Field {
    field("id", scalar(ScalarAllType::Id))
}

fn abstract_table(name: &str, fields: Vec<Field>, extend: Option<&str>) -> TableSchema {
    TableSchema::Abstract(AbstractTableSchema {
        name: name.to_string(),
        fields,
        extend: extend.map(|s| s.to_string()),
    })
}

fn concrete_table(name: &str, fields: Vec<Field>, extend: Option<&str>) -> TableSchema {
    TableSchema::Concrete(ConcreteTableSchema {
        name: name.to_string(),
        workbook: format!("{}.ods", name),
        sheet: name.to_string(),
        fields,
        extend: extend.map(|s| s.to_string()),
    })
}

fn table(base: &str, schema: TableSchema) -> Declared {
    Declared::Table {
        data_file: format!("{}.ods", base),
        schema_file: format!("{}.table.json", base),
        schema,
    }
}

fn module(base: &str) -> Declared {
    Declared::Module { file: format!("{}.mod.json", base) }
}

fn race_schema() -> EnumerationSchema {
    EnumerationSchema {
        name: "Race".to_string(),
        base: EnumerationBase::Uint16,
        enums: vec!["None".to_string(), "Human".to_string(), "Orc".to_string()],
        target: Target::All,
        protocol: true,
        queryable: true,
        attributes: vec![
            EnumerationAttribute { target: Target::Client, attribute: "#[client]".to_string() },
            EnumerationAttribute { target: Target::Server, attribute: "#[server]".to_string() },
            EnumerationAttribute { target: Target::All, attribute: "#[all]".to_string() },
            EnumerationAttribute { target: Target::Nowhere, attribute: "#[none]".to_string() },
        ],
    }
}

fn enumeration(base: &str, schema: EnumerationSchema) -> Declared {
    Declared::Enumeration { file: format!("{}.enum.json", base), schema }
}

fn constant(base: &str, scalar: ConstantScalar) -> Declared {
    Declared::Constant {
        file: format!("{}.const.json", base),
        schema: ConstantSchema { name: base.to_string(), target: Target::All, scalar },
    }
}

fn names(fields: &[&Field]) -> Vec<String> {
    fields.iter().map(|f| f.name.clone()).collect()
}

/// The root declares the module `item` and the table `link_test`; `item`
/// declares the tables `item`, `equipment`, `weapon` and `random_box`.
fn collected() -> Generator {
    let mut generator = Generator::new(config());
    generator.begin("root.mod.json");
    let root = vec![
        module("item"),
        table(
            "link_test",
            concrete_table(
                "LinkTest",
                vec![
                    id_field(),
                    field("item_link", link("item::Item")),
                    Field { optional: Some(true), ..field("optional_item_link", link("item::Item")) },
                    Field { multi: Some(true), ..field("multi_item_link", link("item::Item")) },
                    Field { target: Target::Client, ..field("note", scalar(ScalarAllType::String)) },
                    Field {
                        constraints: Some(vec![Constraint::Unique, Constraint::Max(5)]),
                        ..field("exclusive_max5_item_link", link("item::Item"))
                    },
                ],
                None,
            ),
        ),
    ];
    generator.collect_module(root).unwrap();
    let item = vec![
        table("item", abstract_table("Item", vec![id_field()], None)),
        table(
            "equipment",
            abstract_table("Equipment", vec![field("name", scalar(ScalarAllType::String))], Some("item::Item")),
        ),
        table(
            "weapon",
            concrete_table(
                "Weapon",
                vec![
                    field("weight", scalar(ScalarAllType::Uint16)),
                    field("damage", scalar(ScalarAllType::Uint32)),
                ],
                Some("item::Equipment"),
            ),
        ),
        table(
            "random_box",
            concrete_table(
                "RandomBox",
                vec![
                    field("name", scalar(ScalarAllType::String)),
                    Field {
                        multi: Some(true),
                        ..field(
                            "items",
                            FieldKind::Tuple {
                                types: vec![link("item::Item"), scalar(ScalarAllType::Uint16)],
                            },
                        )
                    },
                ],
                Some("item::Item"),
            ),
        ),
    ];
    generator.collect_module(item).unwrap();
    assert!(generator.next_module().is_none());
    generator.build_table_hierarchies().unwrap();
    generator
}

const LINK_TEST: usize = 0;
const ITEM: usize = 1;
const EQUIPMENT: usize = 2;
const WEAPON: usize = 3;
const RANDOM_BOX: usize = 4;

#[test]
fn server_and_all_are_targets() {
    assert!(Target::Server.is_target());
    assert!(Target::All.is_target());
    assert!(!Target::Client.is_target());
    assert!(!Target::Nowhere.is_target());
}

#[test]
fn a_declared_file_has_three_segments() {
    assert_eq!(declaration_name("weapon.table.json", "table"), Some("weapon".to_string()));
    assert_eq!(declaration_name("race.enum.json", "enum"), Some("race".to_string()));
    assert_eq!(declaration_name("weapon.table.json", "enum"), None);
    assert_eq!(declaration_name("weapon.json", "table"), None);
    assert_eq!(declaration_name("weapon.table", "table"), None);
    assert_eq!(declaration_name("weapon.table.yaml", "table"), None);
    assert_eq!(declaration_name("weapon.v2.table.json", "table"), None);
    assert_eq!(declaration_name("weapon.table.json.bak", "table"), None);
    assert_eq!(declaration_name("weapon", "table"), None);
    assert_eq!(declaration_name("", "table"), None);
}

#[test]
fn a_data_file_is_named_by_what_stands_before_its_first_dot() {
    assert_eq!(data_file_base("weapon.ods"), "weapon");
    assert_eq!(data_file_base("weapon.v2.ods"), "weapon");
    assert_eq!(data_file_base("weapon"), "weapon");
}

#[test]
fn a_declaration_names_its_entity_by_the_base_name_of_its_file() {
    assert_eq!(module("item").base_name(), Ok("item".to_string()));
    assert_eq!(
        table("weapon", abstract_table("Weapon", vec![], None)).base_name(),
        Ok("weapon".to_string())
    );
    assert_eq!(enumeration("race", race_schema()).base_name(), Ok("race".to_string()));
}

#[test]
fn a_file_name_of_the_wrong_shape_is_refused() {
    let wrong_tag = Declared::Module { file: "item.table.json".to_string() };
    assert_eq!(
        wrong_tag.base_name(),
        Err(Error::InvalidDeclarationFilename("item.table.json".to_string()))
    );
    let mismatch = Declared::Table {
        data_file: "weapons.ods".to_string(),
        schema_file: "weapon.table.json".to_string(),
        schema: abstract_table("Weapon", vec![], None),
    };
    assert_eq!(
        mismatch.base_name(),
        Err(Error::InvalidDeclarationFilename("weapon.table.json".to_string()))
    );
    let short = Declared::Enumeration { file: "race.json".to_string(), schema: race_schema() };
    assert_eq!(short.base_name(), Err(Error::InvalidDeclarationFilename("race.json".to_string())));
}

#[test]
fn a_run_begins_with_the_root_module_in_the_queue() {
    let mut generator = Generator::new(config());
    assert!(generator.next_module().is_none());
    generator.begin("root.mod.json");
    let pending = generator.next_module().unwrap();
    assert_eq!(pending.source, "root.mod.json");
    assert_eq!(pending.module.name, Name::new("", Vec::new()));
    assert!(pending.module.entries.is_empty());
}

#[test]
fn entities_are_filed_under_stable_indices() {
    let generator = collected();
    assert_eq!(generator.modules.len(), 2);
    assert_eq!(generator.modules[0].name, Name::new("", Vec::new()));
    assert_eq!(
        generator.modules[0].entries,
        vec![EntityEntry::ModuleIndex(1), EntityEntry::TableIndex(LINK_TEST)]
    );
    assert_eq!(generator.modules[1].name, Name::new("item", vec!["item".to_string()]));
    assert_eq!(
        generator.modules[1].entries,
        vec![
            EntityEntry::TableIndex(ITEM),
            EntityEntry::TableIndex(EQUIPMENT),
            EntityEntry::TableIndex(WEAPON),
            EntityEntry::TableIndex(RANDOM_BOX),
        ]
    );
    assert_eq!(
        generator.table_indices,
        vec!["LinkTest", "item::Item", "item::Equipment", "item::Weapon", "item::RandomBox"]
    );
    assert_eq!(generator.names, generator.table_indices);
    assert_eq!(
        generator.tables[WEAPON].name,
        Name::new("weapon", vec!["item".to_string(), "weapon".to_string()])
    );
    assert_eq!(generator.table_index("item::Weapon"), Some(WEAPON));
    assert_eq!(generator.table_index("Weapon"), None);
    assert_eq!(find_text(&generator.names, "item::Item"), Some(1));
}

#[test]
fn submodules_are_collected_in_the_order_they_were_declared() {
    let mut generator = Generator::new(config());
    generator.begin("root.mod.json");
    generator
        .collect_module(vec![
            module("a"),
            enumeration("race", race_schema()),
            module("b"),
            constant(
                "max_level",
                ConstantScalar::UnsignedInteger {
                    scalar_type: ScalarUnsignedIntegerType::Uint8,
                    value: 99,
                },
            ),
        ])
        .unwrap();
    assert_eq!(generator.next_module().unwrap().source, "a.mod.json");
    generator.collect_module(vec![module("c")]).unwrap();
    assert_eq!(generator.next_module().unwrap().source, "b.mod.json");
    generator.collect_module(Vec::new()).unwrap();
    assert_eq!(generator.next_module().unwrap().source, "c.mod.json");
    assert_eq!(
        generator.next_module().unwrap().module.name,
        Name::new("c", vec!["a".to_string(), "c".to_string()])
    );
    generator.collect_module(Vec::new()).unwrap();
    assert!(generator.next_module().is_none());

    let found: Vec<String> = generator.modules.iter().map(|m| m.name.name.clone()).collect();
    assert_eq!(found, vec!["", "a", "b", "c"]);
    assert_eq!(
        generator.modules[0].entries,
        vec![
            EntityEntry::ModuleIndex(1),
            EntityEntry::EnumerationIndex(0),
            EntityEntry::ModuleIndex(2),
            EntityEntry::ConstantIndex(0),
        ]
    );
    assert_eq!(generator.modules[1].entries, vec![EntityEntry::ModuleIndex(3)]);
    assert_eq!(generator.enumeration_indices, vec!["Race"]);
    assert_eq!(generator.enumeration_index("Race"), Some(0));
    assert_eq!(generator.constants.len(), 1);
}

#[test]
fn two_entities_of_one_name_in_one_namespace_collide() {
    let mut generator = Generator::new(config());
    generator.begin("root.mod.json");
    let result = generator.collect_module(vec![
        table("weapon", abstract_table("Weapon", vec![], None)),
        enumeration("weapon", race_schema()),
    ]);
    assert_eq!(result, Err(Error::NamespaceCollision("Weapon".to_string())));
}

#[test]
fn names_that_differ_only_in_their_case_style_collide() {
    let mut generator = Generator::new(config());
    generator.begin("root.mod.json");
    let result = generator.collect_module(vec![
        module("item"),
        table("random_box", abstract_table("RandomBox", vec![], None)),
        table("RandomBox", abstract_table("RandomBox", vec![], None)),
    ]);
    assert_eq!(result, Err(Error::NamespaceCollision("RandomBox".to_string())));
}

#[test]
fn one_name_in_two_namespaces_does_not_collide() {
    let mut generator = Generator::new(config());
    generator.begin("root.mod.json");
    generator
        .collect_module(vec![
            module("item"),
            module("character"),
            table("weapon", abstract_table("Weapon", vec![], None)),
        ])
        .unwrap();
    generator
        .collect_module(vec![table("weapon", abstract_table("Weapon", vec![], None))])
        .unwrap();
    generator
        .collect_module(vec![table("weapon", abstract_table("Weapon", vec![], None))])
        .unwrap();
    assert_eq!(generator.table_indices, vec!["Weapon", "item::Weapon", "character::Weapon"]);
}

#[test]
fn register_type_refuses_a_registered_type() {
    let mut generator = Generator::new(config());
    assert_eq!(generator.register_type("item::Item"), Ok(()));
    assert_eq!(generator.register_type("item::Weapon"), Ok(()));
    assert_eq!(
        generator.register_type("item::Item"),
        Err(Error::NamespaceCollision("item::Item".to_string()))
    );
    assert_eq!(generator.names, vec!["item::Item", "item::Weapon"]);
}

#[test]
fn a_wrong_file_name_stops_the_collection_before_anything_later_is_registered() {
    let mut generator = Generator::new(config());
    generator.begin("root.mod.json");
    let result = generator.collect_module(vec![
        table("weapon", abstract_table("Weapon", vec![], None)),
        Declared::Enumeration { file: "race.enum".to_string(), schema: race_schema() },
        table("weapon", abstract_table("Weapon", vec![], None)),
    ]);
    assert_eq!(result, Err(Error::InvalidDeclarationFilename("race.enum".to_string())));
    // What stood before the wrong name is registered, nothing else.
    assert_eq!(generator.names, vec!["Weapon"]);
    assert_eq!(generator.table_indices, vec!["Weapon"]);
    assert_eq!(generator.tables.len(), 1);
    assert!(generator.enumerations.is_empty());
    assert!(generator.constants.is_empty());
    assert!(generator.modules.is_empty());
}

#[test]
fn a_collision_leaves_what_was_registered_before_it() {
    let mut generator = Generator::new(config());
    generator.begin("root.mod.json");
    let result = generator.collect_module(vec![
        module("item"),
        enumeration("race", race_schema()),
        table("race", abstract_table("Race", vec![], None)),
        table("weapon", abstract_table("Weapon", vec![], None)),
    ]);
    assert_eq!(result, Err(Error::NamespaceCollision("Race".to_string())));
    assert_eq!(generator.names, vec!["Race"]);
    assert_eq!(generator.enumerations.len(), 1);
    assert!(generator.tables.is_empty());
    assert!(generator.modules.is_empty());
    assert_eq!(generator.pending.len(), 1);
    assert_eq!(generator.pending[0].source, "item.mod.json");
}

#[test]
fn contradicting_attributes_are_refused_whatever_side_the_field_is_for() {
    for target in [Target::Client, Target::Nowhere, Target::Server, Target::All] {
        let mut generator = Generator::new(config());
        generator.begin("root.mod.json");
        generator
            .collect_module(vec![table(
                "a",
                concrete_table(
                    "A",
                    vec![
                        id_field(),
                        Field {
                            target,
                            optional: Some(true),
                            multi: Some(true),
                            ..field("both", scalar(ScalarAllType::Bool))
                        },
                    ],
                    None,
                ),
            )])
            .unwrap();
        assert_eq!(
            generator.generate_table(&generator.tables[0]),
            Err(Error::InvalidAttribute {
                field: "both".to_string(),
                fault: AttributeFault::OptionalAndMulti,
            })
        );
    }
}

#[test]
fn schematic_gives_name_fields_and_parent() {
    let schema = concrete_table("Weapon", vec![id_field()], Some("item::Equipment"));
    assert_eq!(schema.schematic().name(), "Weapon");
    assert_eq!(schema.schematic().fields().len(), 1);
    assert_eq!(schema.schematic().extend(), &Some("item::Equipment".to_string()));
    assert!(schema.is_concrete());
    let schema = abstract_table("Item", vec![], None);
    assert_eq!(schema.name(), "Item");
    assert_eq!(schema.extend(), &None);
    assert!(!schema.is_concrete());
    assert_eq!(ModuleEntry::new(Name::new("a", Vec::new())).entries, Vec::new());
}

#[test]
fn effective_fields_start_with_the_fields_of_the_farthest_ancestor() {
    let generator = collected();
    let fields = generator.get_table_all_fields(&generator.tables[WEAPON].schema).unwrap();
    assert_eq!(names(&fields), vec!["id", "name", "weight", "damage"]);
    let fields = generator.get_table_all_fields(&generator.tables[EQUIPMENT].schema).unwrap();
    assert_eq!(names(&fields), vec!["id", "name"]);
    let fields = generator.get_table_all_fields(&generator.tables[ITEM].schema).unwrap();
    assert_eq!(names(&fields), vec!["id"]);
    let fields = generator.get_table_all_fields(&generator.tables[RANDOM_BOX].schema).unwrap();
    assert_eq!(names(&fields), vec!["id", "name", "items"]);
}

#[test]
fn effective_fields_of_a_chain_of_four() {
    let mut generator = Generator::new(config());
    generator.begin("root.mod.json");
    generator
        .collect_module(vec![
            table("d", abstract_table("D", vec![field("d1", scalar(ScalarAllType::Bool))], Some("C"))),
            table(
                "b",
                abstract_table(
                    "B",
                    vec![field("b1", scalar(ScalarAllType::Bool)), field("b2", scalar(ScalarAllType::Bool))],
                    Some("A"),
                ),
            ),
            table("a", abstract_table("A", vec![field("a1", scalar(ScalarAllType::Bool))], None)),
            table("c", abstract_table("C", vec![], Some("B"))),
        ])
        .unwrap();
    let fields = generator.get_table_all_fields(&generator.tables[0].schema).unwrap();
    assert_eq!(names(&fields), vec!["a1", "b1", "b2", "d1"]);
}

#[test]
fn a_parent_that_is_not_registered_is_unknown() {
    let generator = collected();
    let orphan = concrete_table("Orphan", vec![], Some("item::Armor"));
    assert_eq!(
        generator.get_table_all_fields(&orphan),
        Err(Error::UnknownParent { table: "Orphan".to_string(), parent: "item::Armor".to_string() })
    );
    // The table that starts the walk is named, also where an ancestor has
    // the unknown parent.
    let mut generator = Generator::new(config());
    generator.begin("root.mod.json");
    generator
        .collect_module(vec![
            table("a", abstract_table("A", vec![], Some("Nothing"))),
            table("b", abstract_table("B", vec![], Some("A"))),
        ])
        .unwrap();
    assert_eq!(
        generator.get_table_all_fields(&generator.tables[1].schema),
        Err(Error::UnknownParent { table: "B".to_string(), parent: "Nothing".to_string() })
    );
    assert_eq!(
        generator.build_table_hierarchies(),
        Err(Error::UnknownParent { table: "A".to_string(), parent: "Nothing".to_string() })
    );
}

#[test]
fn tables_that_extend_each_other_in_a_circle_are_refused() {
    let mut generator = Generator::new(config());
    generator.begin("root.mod.json");
    generator
        .collect_module(vec![
            table("a", abstract_table("A", vec![], Some("B"))),
            table("b", abstract_table("B", vec![], Some("A"))),
            table("c", abstract_table("C", vec![], Some("C"))),
        ])
        .unwrap();
    assert_eq!(
        generator.get_table_all_fields(&generator.tables[0].schema),
        Err(Error::CircularInheritance("A".to_string()))
    );
    assert_eq!(
        generator.get_table_all_fields(&generator.tables[2].schema),
        Err(Error::CircularInheritance("C".to_string()))
    );
}

#[test]
fn the_hierarchy_lists_the_direct_children_of_every_table() {
    let generator = collected();
    assert_eq!(
        generator.table_hierarchies,
        vec![vec![], vec![EQUIPMENT, RANDOM_BOX], vec![WEAPON], vec![], vec![]]
    );
}

#[test]
fn a_table_links_to_the_targets_of_its_effective_fields() {
    let generator = collected();
    assert_eq!(generator.table_links(&generator.tables[LINK_TEST].schema), Ok(vec![ITEM; 4]));
    assert_eq!(generator.table_links(&generator.tables[RANDOM_BOX].schema), Ok(vec![ITEM]));
    assert_eq!(generator.table_links(&generator.tables[WEAPON].schema), Ok(vec![]));
    assert_eq!(
        generator.link_graph(),
        Ok(vec![vec![ITEM; 4], vec![], vec![], vec![], vec![ITEM]])
    );
}

#[test]
fn tables_are_levelled_by_their_links() {
    let generator = collected();
    assert_eq!(
        generator.dependency_levels(),
        Ok(vec![vec![ITEM, EQUIPMENT, WEAPON], vec![LINK_TEST, RANDOM_BOX]])
    );
}

#[test]
fn a_link_to_a_type_that_is_no_table_is_unknown() {
    let mut generator = Generator::new(config());
    generator.begin("root.mod.json");
    generator
        .collect_module(vec![table(
            "a",
            concrete_table("A", vec![id_field(), field("other", link("B"))], None),
        )])
        .unwrap();
    assert_eq!(
        generator.dependency_levels(),
        Err(Error::UnknownLinkTarget { table: "A".to_string(), target: "B".to_string() })
    );
}

#[test]
fn tables_that_link_to_each_other_are_a_circular_dependency() {
    let mut generator = Generator::new(config());
    generator.begin("root.mod.json");
    generator
        .collect_module(vec![
            table("a", concrete_table("A", vec![id_field(), field("b", link("B"))], None)),
            table("b", concrete_table("B", vec![id_field(), field("a", link("A"))], None)),
        ])
        .unwrap();
    assert_eq!(generator.dependency_levels(), Err(Error::CircularDependency));
    assert_eq!(generator.generate_table_load(), Err(Error::CircularDependency));
}

#[test]
fn a_tuple_in_a_tuple_is_refused() {
    let nested = FieldKind::Tuple {
        types: vec![
            scalar(ScalarAllType::Bool),
            FieldKind::Tuple { types: vec![scalar(ScalarAllType::Bool), scalar(ScalarAllType::Bool)] },
        ],
    };
    let mut generator = Generator::new(config());
    generator.begin("root.mod.json");
    generator
        .collect_module(vec![table("a", concrete_table("A", vec![id_field(), field("pair", nested)], None))])
        .unwrap();
    let fault =
        Error::InvalidAttribute { field: "pair".to_string(), fault: AttributeFault::NestedTuple };
    assert_eq!(generator.dependency_levels(), Err(fault.clone()));
    assert_eq!(generator.generate_table(&generator.tables[0]), Err(fault));
}

#[test]
fn contradicting_attributes_are_refused() {
    let generator = collected();
    let both = Field { optional: Some(true), multi: Some(true), ..field("f", scalar(ScalarAllType::Bool)) };
    assert_eq!(both.check_attributes(), Some(AttributeFault::OptionalAndMulti));
    assert_eq!(
        generator.plan_field("T", &both, 0),
        Err(Error::InvalidAttribute { field: "f".to_string(), fault: AttributeFault::OptionalAndMulti })
    );
    let unique_list = Field {
        multi: Some(true),
        constraints: Some(vec![Constraint::Max(3), Constraint::Unique]),
        ..field("f", scalar(ScalarAllType::Uint8))
    };
    assert_eq!(unique_list.check_attributes(), Some(AttributeFault::UniqueAndMulti));
    let single = field("f", tuple_of(1));
    assert_eq!(single.check_attributes(), Some(AttributeFault::TupleArity));
    let five = field("f", tuple_of(5));
    assert_eq!(five.check_attributes(), Some(AttributeFault::TupleArity));
    let four = field("f", tuple_of(4));
    assert_eq!(four.check_attributes(), None);
    let explicit = Field {
        optional: Some(false),
        multi: Some(true),
        constraints: Some(vec![Constraint::Min(0)]),
        ..field("f", scalar(ScalarAllType::Uint8))
    };
    assert_eq!(explicit.check_attributes(), None);
    assert_eq!(AttributeFault::OptionalAndMulti.message(), "Optional and multi cannot be both true");
    assert_eq!(AttributeFault::UniqueAndMulti.message(), "Multi field cannot have unique constraint");
    assert_eq!(AttributeFault::TupleArity.message(), "Tuples must have two to four fields");
    assert_eq!(AttributeFault::NestedTuple.message(), "Nested tuples are not supported");
}

#[test]
fn field_kinds_name_their_types() {
    assert_eq!(scalar(ScalarAllType::Id).to_rust_type(), "DataId");
    assert_eq!(scalar(ScalarAllType::Datetime).to_rust_type(), "chrono::DateTime");
    assert_eq!(
        FieldKind::Enum { enum_type: "character::Race".to_string() }.to_rust_type(),
        "crate::character::Race"
    );
    assert_eq!(link("item::Item").to_rust_type(), "Link<crate::item::Item>");
    let pair = FieldKind::Tuple { types: vec![link("item::Item"), scalar(ScalarAllType::Uint16)] };
    assert_eq!(pair.to_rust_type(), "(Link<crate::item::Item>, u16)");
    assert_eq!(
        to_tuple_type_strings(&vec![scalar(ScalarAllType::Bool), scalar(ScalarAllType::String)]),
        vec!["bool", "String"]
    );
}

#[test]
fn a_kind_has_a_link_if_it_is_one_or_holds_one() {
    assert!(link("item::Item").has_link());
    assert!(!scalar(ScalarAllType::Id).has_link());
    assert!(!FieldKind::Enum { enum_type: "Race".to_string() }.has_link());
    assert!(FieldKind::Tuple { types: vec![scalar(ScalarAllType::Bool), link("A")] }.has_link());
    assert!(!tuple_of(3).has_link());
}

#[test]
fn a_table_plan_reads_the_loaded_fields_from_their_columns() {
    let generator = collected();
    let plan = generator.generate_table(&generator.tables[LINK_TEST]).unwrap();
    assert_eq!(plan.label, "LinkTest");
    assert!(plan.concrete);
    assert_eq!(plan.workbook, "LinkTest.ods");
    assert_eq!(plan.sheet, "LinkTest");
    assert_eq!(plan.fields_count, 6);
    assert_eq!(plan.parent, None);
    let columns: Vec<(String, usize, Cardinality)> =
        plan.fields.iter().map(|f| (f.name.clone(), f.column, f.cardinality)).collect();
    assert_eq!(
        columns,
        vec![
            ("id".to_string(), 0, Cardinality::Single),
            ("item_link".to_string(), 1, Cardinality::Single),
            ("optional_item_link".to_string(), 2, Cardinality::Optional),
            ("multi_item_link".to_string(), 3, Cardinality::Multi),
            ("exclusive_max5_item_link".to_string(), 5, Cardinality::Single),
        ]
    );
    assert_eq!(
        plan.fields[4].kind,
        KindPlan::One(ElementPlan::Link { table: ITEM, label: "item::Item".to_string() })
    );
    assert_eq!(plan.fields[4].constraints, vec![Constraint::Unique, Constraint::Max(5)]);
    assert_eq!(plan.fields[4].label, "Link<crate::item::Item>");
    assert_eq!(plan.fields[0].constraints, Vec::new());
}

#[test]
fn a_table_plan_knows_the_table_above() {
    let generator = collected();
    let weapon = generator.generate_table(&generator.tables[WEAPON]).unwrap();
    assert_eq!(weapon.label, "item::Weapon");
    assert_eq!(weapon.parent, Some(EQUIPMENT));
    assert_eq!(weapon.fields_count, 4);
    let item = generator.generate_table(&generator.tables[ITEM]).unwrap();
    assert!(!item.concrete);
    assert_eq!(item.parent, None);
    assert_eq!(item.workbook, "");
    let random_box = generator.generate_table(&generator.tables[RANDOM_BOX]).unwrap();
    assert_eq!(
        random_box.fields[2].kind,
        KindPlan::Tuple(vec![
            ElementPlan::Link { table: ITEM, label: "item::Item".to_string() },
            ElementPlan::Scalar(ScalarAllType::Uint16),
        ])
    );
    assert_eq!(random_box.fields[2].label, "(Link<crate::item::Item>, u16)");
}

#[test]
fn an_enumeration_field_is_planned_with_the_variants() {
    let mut generator = Generator::new(config());
    generator.begin("root.mod.json");
    generator
        .collect_module(vec![
            enumeration("race", race_schema()),
            table(
                "race_stat",
                concrete_table(
                    "RaceStat",
                    vec![
                        id_field(),
                        field("race", FieldKind::Enum { enum_type: "Race".to_string() }),
                        field("speed", scalar(ScalarAllType::Float32)),
                    ],
                    None,
                ),
            ),
            table(
                "broken",
                concrete_table(
                    "Broken",
                    vec![id_field(), field("kind", FieldKind::Enum { enum_type: "Kind".to_string() })],
                    None,
                ),
            ),
        ])
        .unwrap();
    let plan = generator.generate_table(&generator.tables[0]).unwrap();
    assert_eq!(
        plan.fields[1].kind,
        KindPlan::One(ElementPlan::Enum {
            label: "Race".to_string(),
            variants: vec!["None".to_string(), "Human".to_string(), "Orc".to_string()],
        })
    );
    assert_eq!(
        generator.generate_table(&generator.tables[1]),
        Err(Error::UnknownEnumeration { table: "Broken".to_string(), target: "Kind".to_string() })
    );
    assert_eq!(
        generator.generate_table_plans(),
        Err(Error::UnknownEnumeration { table: "Broken".to_string(), target: "Kind".to_string() })
    );
}

#[test]
fn only_an_abstract_table_can_be_extended() {
    let mut generator = Generator::new(config());
    generator.begin("root.mod.json");
    generator
        .collect_module(vec![
            table("a", concrete_table("A", vec![id_field()], None)),
            table("b", concrete_table("B", vec![], Some("A"))),
        ])
        .unwrap();
    assert!(generator.generate_table(&generator.tables[1]).is_ok());
    assert_eq!(
        generator.generate_table_plans(),
        Err(Error::ExtendsConcrete { table: "B".to_string(), parent: "A".to_string() })
    );
}

#[test]
fn what_is_generated_for_an_enumeration() {
    let schema = race_schema();
    let plan = schema.generate_enumeration();
    assert_eq!(plan.type_ident, "Race");
    assert_eq!(plan.base_type, "u16");
    assert_eq!(plan.variants, vec!["None", "Human", "Orc"]);
    assert_eq!(plan.attributes, vec!["#[server]", "#[all]"]);
    assert!(plan.protocol);
    assert!(plan.queryable);
    assert_eq!(plan.sql_labels, vec!["none", "human", "orc"]);
    assert_eq!(EnumerationBase::Uint8.to_rust_type(), "u8");
    assert_eq!(EnumerationBase::Uint32.to_rust_type(), "u32");
}

#[test]
fn variants_and_discriminants_find_each_other() {
    let schema = race_schema();
    assert_eq!(schema.discriminant_of("None"), Some(0));
    assert_eq!(schema.discriminant_of("Orc"), Some(2));
    assert_eq!(schema.discriminant_of("orc"), None);
    assert_eq!(schema.variant_of(1), Some(&"Human".to_string()));
    assert_eq!(schema.variant_of(3), None);
    for d in 0..3u32 {
        assert_eq!(schema.discriminant_of(schema.variant_of(d).unwrap()), Some(d));
    }
}

#[test]
fn what_is_generated_for_a_constant() {
    let signed = ConstantSchema {
        name: "MIN_LEVEL".to_string(),
        target: Target::All,
        scalar: ConstantScalar::SignedInteger { scalar_type: ScalarSignedIntegerType::Int16, value: -3 },
    };
    let plan = signed.generate_constant();
    assert_eq!((plan.name.as_str(), plan.rust_type.as_str(), plan.literal.as_str()), ("MIN_LEVEL", "i16", "-3"));
    assert!(!plan.is_string);
    let unsigned = ConstantSchema {
        name: "MAX".to_string(),
        target: Target::All,
        scalar: ConstantScalar::UnsignedInteger {
            scalar_type: ScalarUnsignedIntegerType::Uint64,
            value: u64::MAX,
        },
    };
    assert_eq!(unsigned.generate_constant().literal, "18446744073709551615");
    assert_eq!(unsigned.generate_constant().rust_type, "u64");
    let float = ConstantSchema {
        name: "RATE".to_string(),
        target: Target::All,
        scalar: ConstantScalar::Float { scalar_type: ScalarFloatType::Float32, value: "0.25".to_string() },
    };
    assert_eq!(float.generate_constant().literal, "0.25");
    assert_eq!(float.generate_constant().rust_type, "f32");
    let string = ConstantSchema {
        name: "TITLE".to_string(),
        target: Target::All,
        scalar: ConstantScalar::String { scalar_type: ScalarStringType::String, value: "Spire".to_string() },
    };
    assert_eq!(string.generate_constant().literal, "Spire");
    assert!(string.generate_constant().is_string);
}

#[test]
fn what_is_generated_for_a_module() {
    let generator = collected();
    assert_eq!(
        generator.generate_module(&generator.modules[0]),
        ModulePlan {
            is_base: true,
            imports: vec!["item".to_string(), "link_test".to_string()],
            exports: vec!["link_test".to_string()],
        }
    );
    assert_eq!(
        generator.generate_module(&generator.modules[1]),
        ModulePlan {
            is_base: false,
            imports: vec![
                "item".to_string(),
                "equipment".to_string(),
                "weapon".to_string(),
                "random_box".to_string(),
            ],
            exports: vec![
                "item".to_string(),
                "equipment".to_string(),
                "weapon".to_string(),
                "random_box".to_string(),
            ],
        }
    );
}

#[test]
fn the_plan_of_loading_names_every_table() {
    let generator = collected();
    let plan = generator.generate_table_load().unwrap();
    assert_eq!(plan.abstract_inits, vec!["item::Item", "item::Equipment"]);
    assert_eq!(
        plan.concrete_loads,
        vec![
            ConcreteLoad {
                table: LINK_TEST,
                data_type: "LinkTestData".to_string(),
                file: "LinkTest.ods".to_string(),
                sheet: "LinkTest".to_string(),
            },
            ConcreteLoad {
                table: WEAPON,
                data_type: "item::WeaponData".to_string(),
                file: "item/Weapon.ods".to_string(),
                sheet: "Weapon".to_string(),
            },
            ConcreteLoad {
                table: RANDOM_BOX,
                data_type: "item::RandomBoxData".to_string(),
                file: "item/RandomBox.ods".to_string(),
                sheet: "RandomBox".to_string(),
            },
        ]
    );
    assert_eq!(plan.levels, vec![vec![ITEM, EQUIPMENT, WEAPON], vec![LINK_TEST, RANDOM_BOX]]);
}

#[test]
fn collected_schemas_load_sheets() {
    let generator = collected();
    let plans = generator.generate_table_plans().unwrap();
    let levels = generator.dependency_levels().unwrap();
    let text = |s: &str| Cell::Text(s.to_string());
    let mut sheets: Vec<Vec<Vec<Cell>>> = vec![Vec::new(); 5];
    sheets[WEAPON] = vec![vec![Cell::Int(1), text("Sword"), Cell::Int(3), Cell::Int(10)]];
    sheets[RANDOM_BOX] = vec![vec![Cell::Int(2), text("Box"), text("[(1, 100)]")]];
    sheets[LINK_TEST] = vec![vec![
        Cell::Int(7),
        Cell::Int(2),
        Cell::Empty,
        text("[1, 2]"),
        text("for the client"),
        Cell::Int(1),
    ]];
    let store = DataStore::load_all(&plans, &sheets, &levels).unwrap();
    assert_eq!(
        store.entries[ITEM],
        vec![
            AbstractRow { id: DataId(1), variant: EQUIPMENT, slot: 0 },
            AbstractRow { id: DataId(2), variant: RANDOM_BOX, slot: 0 },
        ]
    );
    assert_eq!(store.rows[LINK_TEST][0].id, DataId(7));
    assert_eq!(store.rows[LINK_TEST][0].values.len(), 5);
}
