use data_generator::data::arena::{check_constraints, number_of_row, Arena};
use data_generator::data::cell::Cell;
use data_generator::data::constraint::{
    integer_of, same_element, same_scalar, same_value, text_of_scalar, text_of_value,
};
use data_generator::data::error::{ConstraintError, Error, LinkError, ParseError};
use data_generator::data::link::{resolve_row, reversed, Linkable};
use data_generator::data::plan::{Cardinality, ElementPlan, FieldPlan, KindPlan, TablePlan};
use data_generator::data::store::{AbstractRow, DataStore};
use data_generator::data::value::{Element, Row, Scalar, Value};
use data_generator::data::written::{text_of_element, text_written};
use data_generator::data::{DataId, Link, RowRef};
use data_generator::generator::table::{Constraint, ScalarAllType};
use std::collections::HashMap;

const ITEM: usize = 0;
const EQUIPMENT: usize = 1;
const WEAPON: usize = 2;
const RANDOM_BOX: usize = 3;
const LINK_TEST: usize = 4;

fn text(s: &str) -> Cell {
    Cell::Text(s.to_string())
}

fn scalar(t: ScalarAllType) -> KindPlan {
    KindPlan::One(ElementPlan::Scalar(t))
}

fn item_link() -> ElementPlan {
    ElementPlan::Link { table: ITEM, label: "item::Item".to_string() }
}

fn field(name: &str, column: usize, kind: KindPlan, cardinality: Cardinality) -> FieldPlan {
    FieldPlan {
        name: name.to_string(),
        column,
        kind,
        cardinality,
        constraints: Vec::new(),
        label: String::new(),
    }
}

fn constrained(mut plan: FieldPlan, label: &str, constraints: Vec<Constraint>) -> FieldPlan {
    plan.label = label.to_string();
    plan.constraints = constraints;
    plan
}

fn abstract_plan(label: &str, parent: Option<usize>) -> TablePlan {
    TablePlan {
        label: label.to_string(),
        concrete: false,
        workbook: String::new(),
        sheet: String::new(),
        fields_count: 1,
        fields: Vec::new(),
        parent,
    }
}

fn weapon_plan() -> TablePlan {
    TablePlan {
        label: "item::Weapon".to_string(),
        concrete: true,
        workbook: "weapon.ods".to_string(),
        sheet: "Weapon".to_string(),
        fields_count: 4,
        fields: vec![
            field("id", 0, scalar(ScalarAllType::Id), Cardinality::Single),
            field("name", 1, scalar(ScalarAllType::String), Cardinality::Single),
            field("weight", 2, scalar(ScalarAllType::Uint16), Cardinality::Single),
            field("damage", 3, scalar(ScalarAllType::Uint32), Cardinality::Single),
        ],
        parent: Some(EQUIPMENT),
    }
}

fn random_box_plan() -> TablePlan {
    TablePlan {
        label: "item::RandomBox".to_string(),
        concrete: true,
        workbook: "random_box.ods".to_string(),
        sheet: "RandomBox".to_string(),
        fields_count: 3,
        fields: vec![
            field("id", 0, scalar(ScalarAllType::Id), Cardinality::Single),
            field("name", 1, scalar(ScalarAllType::String), Cardinality::Single),
            field(
                "items",
                2,
                KindPlan::Tuple(vec![item_link(), ElementPlan::Scalar(ScalarAllType::Uint16)]),
                Cardinality::Multi,
            ),
        ],
        parent: Some(ITEM),
    }
}

fn link_test_plan() -> TablePlan {
    TablePlan {
        label: "LinkTest".to_string(),
        concrete: true,
        workbook: "link_test.ods".to_string(),
        sheet: "LinkTest".to_string(),
        fields_count: 6,
        fields: vec![
            field("id", 0, scalar(ScalarAllType::Id), Cardinality::Single),
            field("item_link", 1, KindPlan::One(item_link()), Cardinality::Single),
            field("optional_item_link", 2, KindPlan::One(item_link()), Cardinality::Optional),
            field("multi_item_link", 3, KindPlan::One(item_link()), Cardinality::Multi),
            constrained(
                field("exclusive_max5_item_link", 5, KindPlan::One(item_link()), Cardinality::Single),
                "Link<crate::item::Item>",
                vec![Constraint::Unique, Constraint::Max(5)],
            ),
        ],
        parent: None,
    }
}

fn plans() -> Vec<TablePlan> {
    vec![
        abstract_plan("item::Item", None),
        abstract_plan("item::Equipment", Some(ITEM)),
        weapon_plan(),
        random_box_plan(),
        link_test_plan(),
    ]
}

fn levels() -> Vec<Vec<usize>> {
    vec![vec![ITEM, EQUIPMENT, WEAPON], vec![RANDOM_BOX, LINK_TEST]]
}

fn weapon_sheet() -> Vec<Vec<Cell>> {
    vec![
        vec![Cell::Int(1), text("Sword"), Cell::Int(3), Cell::Int(10)],
        vec![Cell::Int(2), text("Axe"), Cell::Int(5), Cell::Int(12)],
    ]
}

fn random_box_sheet() -> Vec<Vec<Cell>> {
    vec![vec![Cell::Int(10), text("Box"), text("[(1, 50), (2, 50)]")]]
}

fn link_test_row(id: i64, link: i64, optional: Cell, multi: &str, exclusive: i64) -> Vec<Cell> {
    vec![Cell::Int(id), Cell::Int(link), optional, text(multi), text("note"), Cell::Int(exclusive)]
}

fn sheets(link_test: Vec<Vec<Cell>>) -> Vec<Vec<Vec<Cell>>> {
    vec![Vec::new(), Vec::new(), weapon_sheet(), random_box_sheet(), link_test]
}

fn resolved(id: u32, table: usize, slot: usize) -> Scalar {
    Scalar::Link(Link::Resolved { id: DataId(id), target: RowRef { table, slot } })
}

fn one(s: Scalar) -> Value {
    Value::Single(Element::One(s))
}

fn duplicate(type_label: &str, id: u32, a: &str, b: &str) -> Error {
    Error::DuplicateId {
        type_label: type_label.to_string(),
        id: DataId(id),
        a: a.to_string(),
        b: b.to_string(),
    }
}

fn entry(id: u32, table: usize, place: usize) -> String {
    format!("Entry {{ id: DataId({}), table: {}, place: {} }}", id, table, place)
}

fn numbered_sheet(n: i64) -> Vec<Vec<Cell>> {
    (0..n)
        .map(|i| vec![Cell::Int(i), text(&format!("w{}", i)), Cell::Int(i), Cell::Int(2 * i)])
        .collect()
}

#[test]
fn data_rows_are_numbered_behind_the_header() {
    assert_eq!(number_of_row(0), 3);
    assert_eq!(number_of_row(1), 4);
    assert_eq!(number_of_row(usize::MAX - 1), usize::MAX);
}

#[test]
fn rows_are_found_by_their_id() {
    let arena = Arena::load(&numbered_sheet(5), &weapon_plan()).unwrap();
    assert_eq!(arena.len(), 5);
    for i in 0..5u32 {
        let row = arena.get(&DataId(i)).unwrap();
        assert_eq!(row.id, DataId(i));
        assert_eq!(
            row.values,
            vec![
                one(Scalar::Id(DataId(i))),
                one(Scalar::Text(format!("w{}", i))),
                one(Scalar::Uint(i as u64)),
                one(Scalar::Uint(2 * i as u64)),
            ]
        );
        assert_eq!(arena.slot(&DataId(i)), Some(i as usize));
        assert_eq!(arena.row(i as usize), Some(row));
    }
    assert_eq!(arena.get(&DataId(5)), None);
    assert_eq!(arena.slot(&DataId(5)), None);
    assert_eq!(arena.row(5), None);
    assert_eq!(arena.find(&DataId(4)), Some(4));
    assert_eq!(arena.find(&DataId(5)), None);
}

#[test]
fn rows_keep_the_order_of_the_sheet() {
    let sheet = vec![
        vec![Cell::Int(30), text("c"), Cell::Int(0), Cell::Int(0)],
        vec![Cell::Int(10), text("a"), Cell::Int(0), Cell::Int(0)],
        vec![Cell::Int(20), text("b"), Cell::Int(0), Cell::Int(0)],
    ];
    let arena = Arena::load(&sheet, &weapon_plan()).unwrap();
    let ids: Vec<u32> = arena.rows.iter().map(|r| r.id.0).collect();
    assert_eq!(ids, vec![30, 10, 20]);
    assert_eq!(arena.slot(&DataId(10)), Some(1));
}

#[test]
fn an_empty_sheet_loads_as_an_empty_arena() {
    let arena = Arena::load(&Vec::new(), &weapon_plan()).unwrap();
    assert_eq!(arena.len(), 0);
    assert_eq!(arena.get(&DataId(0)), None);
}

#[test]
fn a_second_row_of_one_id_is_refused() {
    let mut sheet = numbered_sheet(3);
    sheet.push(vec![Cell::Int(1), text("again"), Cell::Int(0), Cell::Int(0)]);
    assert_eq!(
        Arena::load(&sheet, &weapon_plan()),
        Err(duplicate(
            "item::Weapon",
            1,
            "Row { id: DataId(1), values: [DataId(1), w1, 1, 2] }",
            "Row { id: DataId(1), values: [DataId(1), again, 0, 0] }",
        ))
    );
}

#[test]
fn a_row_that_cannot_be_read_is_cited_by_its_number_in_the_sheet() {
    let mut sheet = numbered_sheet(2);
    sheet.push(vec![Cell::Int(2), text("w"), text("heavy"), Cell::Int(0)]);
    sheet.push(vec![Cell::Int(2), text("never reached"), Cell::Int(0), Cell::Int(0)]);
    assert_eq!(
        Arena::load(&sheet, &weapon_plan()),
        Err(Error::Parse {
            workbook: "weapon.ods".to_string(),
            sheet: "Weapon".to_string(),
            row: 5,
            column: "weight".to_string(),
            error: ParseError::InvalidFormat {
                type_label: "u16".to_string(),
                expected: "integer".to_string(),
                actual: "heavy".to_string(),
            },
        })
    );
    assert_eq!(
        Arena::load(&vec![vec![Cell::Int(1)]], &weapon_plan()),
        Err(Error::Parse {
            workbook: "weapon.ods".to_string(),
            sheet: "Weapon".to_string(),
            row: 3,
            column: String::new(),
            error: ParseError::InvalidColumnCount { expected: 4, actual: 1 },
        })
    );
}

fn unique_name_plan() -> TablePlan {
    let mut plan = weapon_plan();
    plan.fields[1] = constrained(plan.fields[1].clone(), "String", vec![Constraint::Unique]);
    plan
}

#[test]
fn a_value_of_a_unique_field_that_is_taken_fails_at_the_second_row() {
    let sheet = vec![
        vec![Cell::Int(1), text("Sword"), Cell::Int(3), Cell::Int(10)],
        vec![Cell::Int(2), text("Axe"), Cell::Int(5), Cell::Int(12)],
        vec![Cell::Int(3), text(" Sword "), Cell::Int(4), Cell::Int(11)],
    ];
    assert_eq!(
        Arena::load(&sheet, &unique_name_plan()),
        Err(Error::Constraint {
            workbook: "weapon.ods".to_string(),
            sheet: "Weapon".to_string(),
            row: 5,
            column: "name".to_string(),
            error: ConstraintError::Unique {
                type_label: "String".to_string(),
                value: "Sword".to_string(),
            },
        })
    );
}

#[test]
fn distinct_values_of_a_unique_field_load() {
    let sheet = vec![
        vec![Cell::Int(1), text("Sword"), Cell::Int(3), Cell::Int(10)],
        vec![Cell::Int(2), text("Axe"), Cell::Int(3), Cell::Int(10)],
        vec![Cell::Int(3), text("sword"), Cell::Int(3), Cell::Int(10)],
    ];
    let arena = Arena::load(&sheet, &unique_name_plan()).unwrap();
    assert_eq!(arena.len(), 3);
}

fn bounded_weight_plan() -> TablePlan {
    let mut plan = weapon_plan();
    plan.fields[2] =
        constrained(plan.fields[2].clone(), "u16", vec![Constraint::Min(2), Constraint::Max(5)]);
    plan
}

#[test]
fn a_value_above_the_maximum_fails() {
    let sheet = vec![
        vec![Cell::Int(1), text("a"), Cell::Int(5), Cell::Int(0)],
        vec![Cell::Int(2), text("b"), Cell::Int(6), Cell::Int(0)],
    ];
    assert_eq!(
        Arena::load(&sheet, &bounded_weight_plan()),
        Err(Error::Constraint {
            workbook: "weapon.ods".to_string(),
            sheet: "Weapon".to_string(),
            row: 4,
            column: "weight".to_string(),
            error: ConstraintError::Max {
                type_label: "u16".to_string(),
                expected: "5".to_string(),
                actual: "6".to_string(),
            },
        })
    );
}

#[test]
fn a_value_below_the_minimum_fails() {
    let sheet = vec![
        vec![Cell::Int(1), text("a"), Cell::Int(2), Cell::Int(0)],
        vec![Cell::Int(2), text("b"), Cell::Int(1), Cell::Int(0)],
    ];
    assert_eq!(
        Arena::load(&sheet, &bounded_weight_plan()),
        Err(Error::Constraint {
            workbook: "weapon.ods".to_string(),
            sheet: "Weapon".to_string(),
            row: 4,
            column: "weight".to_string(),
            error: ConstraintError::Min {
                type_label: "u16".to_string(),
                expected: "2".to_string(),
                actual: "1".to_string(),
            },
        })
    );
}

#[test]
fn the_first_broken_constraint_of_the_first_field_decides() {
    let mut plan = bounded_weight_plan();
    plan.fields[1] = constrained(plan.fields[1].clone(), "String", vec![Constraint::Unique]);
    let earlier = Arena::load(
        &vec![vec![Cell::Int(1), text("a"), Cell::Int(3), Cell::Int(0)]],
        &plan,
    )
    .unwrap();
    let row = Row::parse(&vec![Cell::Int(2), text("a"), Cell::Int(9), Cell::Int(0)], &plan).unwrap();
    assert_eq!(
        check_constraints(&plan.fields, &earlier.rows, &row),
        Some((
            "name".to_string(),
            ConstraintError::Unique { type_label: "String".to_string(), value: "a".to_string() }
        ))
    );
    let row = Row::parse(&vec![Cell::Int(2), text("b"), Cell::Int(9), Cell::Int(0)], &plan).unwrap();
    assert_eq!(
        check_constraints(&plan.fields, &earlier.rows, &row),
        Some((
            "weight".to_string(),
            ConstraintError::Max {
                type_label: "u16".to_string(),
                expected: "5".to_string(),
                actual: "9".to_string(),
            }
        ))
    );
    let row = Row::parse(&vec![Cell::Int(2), text("b"), Cell::Int(4), Cell::Int(0)], &plan).unwrap();
    assert_eq!(check_constraints(&plan.fields, &earlier.rows, &row), None);
}

#[test]
fn values_compare_by_content_and_links_by_their_id() {
    let a = Scalar::Link(Link::Unresolved(DataId(3)));
    let b = resolved(3, 0, 7);
    assert!(same_scalar(&a, &b));
    assert!(!same_scalar(&a, &Scalar::Id(DataId(3))));
    assert!(!same_scalar(&Scalar::Int(1), &Scalar::Uint(1)));
    assert!(same_scalar(&Scalar::Text("x".to_string()), &Scalar::Text("x".to_string())));
    assert!(!same_scalar(&Scalar::Text("x".to_string()), &Scalar::Float("x".to_string())));
    let t1 = Element::Tuple(vec![Scalar::Uint(1), Scalar::Bool(true)]);
    let t2 = Element::Tuple(vec![Scalar::Uint(1), Scalar::Bool(true)]);
    let t3 = Element::Tuple(vec![Scalar::Uint(1)]);
    assert!(same_element(&t1, &t2));
    assert!(!same_element(&t1, &t3));
    assert!(!same_element(&t1, &Element::One(Scalar::Uint(1))));
    assert!(same_value(&Value::Optional(None), &Value::Optional(None)));
    assert!(!same_value(&Value::Optional(None), &Value::Optional(Some(t3))));
    assert!(same_value(&Value::Multi(vec![]), &Value::Multi(vec![])));
    assert!(!same_value(&Value::Multi(vec![]), &Value::Optional(None)));
}

#[test]
fn values_are_written_out_for_errors() {
    assert_eq!(text_of_scalar(&Scalar::Id(DataId(5))), "DataId(5)");
    assert_eq!(text_of_scalar(&Scalar::Link(Link::Unresolved(DataId(5)))), "Link(DataId(5))");
    assert_eq!(text_of_scalar(&Scalar::Int(-3)), "-3");
    assert_eq!(text_of_scalar(&Scalar::Uint(u64::MAX)), "18446744073709551615");
    assert_eq!(text_of_scalar(&Scalar::Bool(false)), "false");
    assert_eq!(text_of_scalar(&Scalar::Enum(2)), "2");
    assert_eq!(text_of_value(&one(Scalar::Text("a b".to_string()))), "a b");
    assert_eq!(text_of_value(&Value::Multi(vec![])), "");
    assert_eq!(integer_of(&one(Scalar::Uint(9))), Some(9));
    assert_eq!(integer_of(&one(Scalar::Link(Link::Unresolved(DataId(4))))), Some(4));
    assert_eq!(integer_of(&one(Scalar::Text("9".to_string()))), None);
    assert_eq!(integer_of(&Value::Optional(None)), None);
}

#[test]
fn values_rows_and_entries_are_written_out() {
    let pair = Element::Tuple(vec![Scalar::Link(Link::Unresolved(DataId(1))), Scalar::Uint(50)]);
    assert_eq!(text_of_element(&pair), "(Link(DataId(1)), 50)");
    assert_eq!(text_of_element(&Element::Tuple(vec![])), "()");
    assert_eq!(text_written(&Value::Optional(None)), "None");
    assert_eq!(
        text_written(&Value::Optional(Some(Element::One(Scalar::Bool(true))))),
        "Some(true)"
    );
    assert_eq!(text_written(&Value::Multi(vec![])), "[]");
    let row = Row {
        id: DataId(10),
        values: vec![
            one(Scalar::Id(DataId(10))),
            one(Scalar::Text("Box".to_string())),
            Value::Multi(vec![pair, Element::One(Scalar::Int(-1))]),
        ],
    };
    assert_eq!(
        row.to_text(),
        "Row { id: DataId(10), values: [DataId(10), Box, [(Link(DataId(1)), 50), -1]] }"
    );
    assert_eq!(
        AbstractRow { id: DataId(3), variant: 2, slot: 7 }.to_text(),
        "Entry { id: DataId(3), table: 2, place: 7 }"
    );
}

#[test]
fn reversed_turns_the_order_around() {
    assert_eq!(reversed(vec![1, 2, 3]), vec![3, 2, 1]);
    assert_eq!(reversed(Vec::<u8>::new()), Vec::<u8>::new());
}

#[test]
fn a_link_is_resolved_by_the_index_of_its_target() {
    let mut index: HashMap<u32, usize> = HashMap::new();
    index.insert(7, 2);
    assert_eq!(index.find(&DataId(7)), Some(2));
    assert_eq!(index.find(&DataId(8)), None);
    let mut link = Link::Unresolved(DataId(7));
    assert_eq!(link.target(), None);
    assert_eq!(link.init(&index, 4, "item::Item"), Ok(()));
    assert_eq!(link, Link::Resolved { id: DataId(7), target: RowRef { table: 4, slot: 2 } });
    assert_eq!(link.id(), DataId(7));
    assert_eq!(link.target(), Some(RowRef { table: 4, slot: 2 }));
    let mut missing = Link::Unresolved(DataId(8));
    assert_eq!(
        missing.init(&index, 4, "item::Item"),
        Err(LinkError::Missing { type_label: "item::Item".to_string(), id: DataId(8) })
    );
    assert_eq!(missing, Link::Unresolved(DataId(8)));
}

#[test]
fn the_links_of_a_row_are_resolved_in_every_field() {
    let plan = link_test_plan();
    let row = Row::parse(&link_test_row(100, 1, Cell::Int(2), "[2, 1]", 1), &plan).unwrap();
    let mut item: HashMap<u32, usize> = HashMap::new();
    item.insert(1, 0);
    item.insert(2, 1);
    let indexes = vec![item];
    assert_eq!(
        resolve_row(row, &plan.fields, &indexes),
        Ok(Row {
            id: DataId(100),
            values: vec![
                one(Scalar::Id(DataId(100))),
                one(resolved(1, ITEM, 0)),
                Value::Optional(Some(Element::One(resolved(2, ITEM, 1)))),
                Value::Multi(vec![
                    Element::One(resolved(2, ITEM, 1)),
                    Element::One(resolved(1, ITEM, 0)),
                ]),
                one(resolved(1, ITEM, 0)),
            ],
        })
    );
}

#[test]
fn all_tables_load_and_all_links_resolve() {
    let sheets = sheets(vec![
        link_test_row(100, 1, Cell::Empty, "[1, 10]", 2),
        link_test_row(101, 10, Cell::Int(2), "[]", 1),
    ]);
    let store = DataStore::load_all(&plans(), &sheets, &levels()).unwrap();

    // The concrete tables hold their rows, the abstract tables none.
    assert_eq!(store.rows[WEAPON].len(), 2);
    assert_eq!(store.rows[RANDOM_BOX].len(), 1);
    assert_eq!(store.rows[LINK_TEST].len(), 2);
    assert!(store.rows[ITEM].is_empty());
    assert!(store.rows[EQUIPMENT].is_empty());

    // Every row of a table stands in the arena of every table above it.
    assert_eq!(
        store.entries[EQUIPMENT],
        vec![
            AbstractRow { id: DataId(1), variant: WEAPON, slot: 0 },
            AbstractRow { id: DataId(2), variant: WEAPON, slot: 1 },
        ]
    );
    assert_eq!(
        store.entries[ITEM],
        vec![
            AbstractRow { id: DataId(1), variant: EQUIPMENT, slot: 0 },
            AbstractRow { id: DataId(2), variant: EQUIPMENT, slot: 1 },
            AbstractRow { id: DataId(10), variant: RANDOM_BOX, slot: 0 },
        ]
    );
    assert!(store.entries[WEAPON].is_empty());

    // The links have taken the places of their targets.
    assert_eq!(
        store.rows[RANDOM_BOX][0].values[2],
        Value::Multi(vec![
            Element::Tuple(vec![resolved(1, ITEM, 0), Scalar::Uint(50)]),
            Element::Tuple(vec![resolved(2, ITEM, 1), Scalar::Uint(50)]),
        ])
    );
    assert_eq!(
        store.rows[LINK_TEST][0].values,
        vec![
            one(Scalar::Id(DataId(100))),
            one(resolved(1, ITEM, 0)),
            Value::Optional(None),
            Value::Multi(vec![Element::One(resolved(1, ITEM, 0)), Element::One(resolved(10, ITEM, 2))]),
            one(resolved(2, ITEM, 1)),
        ]
    );
    assert_eq!(store.rows[LINK_TEST][1].values[1], one(resolved(10, ITEM, 2)));
}

#[test]
fn a_resolved_link_leads_to_the_row_of_its_id() {
    let sheets = sheets(vec![link_test_row(100, 2, Cell::Empty, "[]", 1)]);
    let store = DataStore::load_all(&plans(), &sheets, &levels()).unwrap();
    let link = match &store.rows[LINK_TEST][0].values[1] {
        Value::Single(Element::One(Scalar::Link(link))) => *link,
        other => panic!("no link: {:?}", other),
    };
    // The link leads to the entry of the abstract table, the entry to the
    // entry of the table below, and that to the row.
    let item = store.entry(link.target().unwrap()).unwrap();
    assert_eq!(item, AbstractRow { id: DataId(2), variant: EQUIPMENT, slot: 1 });
    let equipment = store.entry(RowRef { table: item.variant, slot: item.slot }).unwrap();
    assert_eq!(equipment, AbstractRow { id: DataId(2), variant: WEAPON, slot: 1 });
    let weapon = store.row(RowRef { table: equipment.variant, slot: equipment.slot }).unwrap();
    assert_eq!(weapon.id, DataId(2));
    assert_eq!(weapon.values[1], one(Scalar::Text("Axe".to_string())));
    assert_eq!(store.find(ITEM, &DataId(2)), link.target());
    assert_eq!(store.find(ITEM, &DataId(3)), None);
    assert_eq!(store.row(RowRef { table: WEAPON, slot: 2 }), None);
    assert_eq!(store.entry(RowRef { table: ITEM, slot: 9 }), None);
}

#[test]
fn a_link_to_an_id_that_no_row_has_fails_and_names_the_row_of_the_link() {
    let sheets = sheets(vec![
        link_test_row(100, 1, Cell::Empty, "[]", 1),
        link_test_row(101, 99, Cell::Empty, "[]", 2),
    ]);
    assert_eq!(
        DataStore::load_all(&plans(), &sheets, &levels()),
        Err(Error::Link {
            workbook: "link_test.ods".to_string(),
            sheet: "LinkTest".to_string(),
            id: DataId(101),
            error: LinkError::Missing { type_label: "item::Item".to_string(), id: DataId(99) },
        })
    );
}

#[test]
fn a_missing_link_inside_a_list_of_tuples_fails() {
    let mut sheets = sheets(Vec::new());
    sheets[RANDOM_BOX] = vec![vec![Cell::Int(10), text("Box"), text("[(1, 50), (3, 50)]")]];
    assert_eq!(
        DataStore::load_all(&plans(), &sheets, &levels()),
        Err(Error::Link {
            workbook: "random_box.ods".to_string(),
            sheet: "RandomBox".to_string(),
            id: DataId(10),
            error: LinkError::Missing { type_label: "item::Item".to_string(), id: DataId(3) },
        })
    );
}

#[test]
fn one_id_in_two_tables_below_one_abstract_table_fails() {
    let mut sheets = sheets(Vec::new());
    sheets[RANDOM_BOX] = vec![vec![Cell::Int(2), text("Box"), text("[]")]];
    assert_eq!(
        DataStore::load_all(&plans(), &sheets, &levels()),
        Err(duplicate("item::Item", 2, &entry(2, EQUIPMENT, 1), &entry(2, RANDOM_BOX, 0)))
    );
}

#[test]
fn a_link_field_is_held_to_its_constraints_by_the_id() {
    let sheets_unique = sheets(vec![
        link_test_row(100, 1, Cell::Empty, "[]", 2),
        link_test_row(101, 1, Cell::Empty, "[]", 2),
    ]);
    assert_eq!(
        DataStore::load_all(&plans(), &sheets_unique, &levels()),
        Err(Error::Constraint {
            workbook: "link_test.ods".to_string(),
            sheet: "LinkTest".to_string(),
            row: 4,
            column: "exclusive_max5_item_link".to_string(),
            error: ConstraintError::Unique {
                type_label: "Link<crate::item::Item>".to_string(),
                value: "Link(DataId(2))".to_string(),
            },
        })
    );
    let sheets_max = sheets(vec![link_test_row(100, 1, Cell::Empty, "[]", 10)]);
    assert_eq!(
        DataStore::load_all(&plans(), &sheets_max, &levels()),
        Err(Error::Constraint {
            workbook: "link_test.ods".to_string(),
            sheet: "LinkTest".to_string(),
            row: 3,
            column: "exclusive_max5_item_link".to_string(),
            error: ConstraintError::Max {
                type_label: "Link<crate::item::Item>".to_string(),
                expected: "5".to_string(),
                actual: "Link(DataId(10))".to_string(),
            },
        })
    );
}

#[test]
fn an_error_of_loading_comes_before_an_error_of_linking() {
    let mut sheets = sheets(vec![link_test_row(100, 99, Cell::Empty, "[]", 1)]);
    sheets[WEAPON].push(vec![Cell::Int(1), text("again"), Cell::Int(0), Cell::Int(0)]);
    assert_eq!(
        DataStore::load_all(&plans(), &sheets, &levels()),
        Err(duplicate(
            "item::Weapon",
            1,
            "Row { id: DataId(1), values: [DataId(1), Sword, 3, 10] }",
            "Row { id: DataId(1), values: [DataId(1), again, 0, 0] }",
        ))
    );
}

#[test]
fn register_enters_a_row_into_every_arena_above() {
    let plans = plans();
    let mut store = DataStore::new(&plans);
    assert_eq!(store.register(&plans, WEAPON, DataId(5), 0), Ok(()));
    assert_eq!(store.entries[EQUIPMENT], vec![AbstractRow { id: DataId(5), variant: WEAPON, slot: 0 }]);
    assert_eq!(store.entries[ITEM], vec![AbstractRow { id: DataId(5), variant: EQUIPMENT, slot: 0 }]);
    assert_eq!(store.register(&plans, RANDOM_BOX, DataId(6), 0), Ok(()));
    assert_eq!(store.entries[ITEM].len(), 2);
    assert_eq!(store.entries[EQUIPMENT].len(), 1);
    // A table that extends nothing enters its rows nowhere.
    assert_eq!(store.register(&plans, LINK_TEST, DataId(5), 0), Ok(()));
    assert_eq!(store.entries[ITEM].len(), 2);
    let before = DataStore {
        rows: Vec::new(),
        entries: store.entries.clone(),
        indexes: store.indexes.clone(),
    };
    assert_eq!(
        store.register(&plans, RANDOM_BOX, DataId(5), 1),
        Err(duplicate("item::Item", 5, &entry(5, EQUIPMENT, 0), &entry(5, RANDOM_BOX, 1)))
    );
    // The arena that held the id is as it was, and so are the others.
    assert_eq!(store.entries, before.entries);
    assert_eq!(store.indexes, before.indexes);
}

#[test]
fn a_duplicate_higher_up_leaves_the_arena_that_holds_it_as_it_is() {
    let plans = plans();
    let mut store = DataStore::new(&plans);
    assert_eq!(store.register(&plans, RANDOM_BOX, DataId(7), 0), Ok(()));
    let item = store.entries[ITEM].clone();
    // The weapon is entered into the arena of the equipment; the arena of
    // the items holds the id and refuses it.
    assert_eq!(
        store.register(&plans, WEAPON, DataId(7), 0),
        Err(duplicate("item::Item", 7, &entry(7, RANDOM_BOX, 0), &entry(7, EQUIPMENT, 0)))
    );
    assert_eq!(store.entries[ITEM], item);
    assert_eq!(
        store.entries[EQUIPMENT],
        vec![AbstractRow { id: DataId(7), variant: WEAPON, slot: 0 }]
    );
}

#[test]
fn a_table_that_does_not_load_leaves_the_store_as_it_is() {
    let plans = plans();
    let mut store = DataStore::new(&plans);
    let mut all = sheets(Vec::new());
    assert_eq!(store.load_table(&plans, &all, WEAPON), Ok(()));
    let entries = store.entries.clone();
    let weapons = store.rows[WEAPON].clone();
    all[RANDOM_BOX] = vec![vec![Cell::Int(10), text("Box"), text("no list")]];
    assert!(store.load_table(&plans, &all, RANDOM_BOX).is_err());
    assert_eq!(store.entries, entries);
    assert_eq!(store.rows[WEAPON], weapons);
    assert!(store.rows[RANDOM_BOX].is_empty());
    // An id that the arena above holds: the held entry stays.
    all[RANDOM_BOX] = vec![vec![Cell::Int(2), text("Box"), text("[]")]];
    assert_eq!(
        store.load_table(&plans, &all, RANDOM_BOX),
        Err(duplicate("item::Item", 2, &entry(2, EQUIPMENT, 1), &entry(2, RANDOM_BOX, 0)))
    );
    assert_eq!(store.entries, entries);
    assert_eq!(store.rows[WEAPON], weapons);
}
