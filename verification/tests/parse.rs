use data_generator::data::cell::Cell;
use data_generator::data::error::ParseError;
use data_generator::data::parse::{
    check_range, parse, parse_element, parse_element_string, parse_multi, parse_optional,
    parse_scalar, parse_scalar_string, parse_string, parse_tuple_string, parse_value,
    scalar_label_text, string_to_integer, to_integer,
};
use data_generator::data::plan::{Cardinality, ElementPlan, FieldPlan, KindPlan, TablePlan};
use data_generator::data::value::{Element, Row, Scalar, Value};
use data_generator::data::{DataId, Link};
use data_generator::generator::table::ScalarAllType;

fn text(s: &str) -> Cell {
    Cell::Text(s.to_string())
}

fn float(text: &str, truncated: i64) -> Cell {
    Cell::Float { text: text.to_string(), truncated }
}

fn invalid_format(type_label: &str, expected: &str, actual: &str) -> ParseError {
    ParseError::InvalidFormat {
        type_label: type_label.to_string(),
        expected: expected.to_string(),
        actual: actual.to_string(),
    }
}

fn out_of_range(type_label: &str, min: i64, max: i64, value: i64) -> ParseError {
    ParseError::OutOfRange { type_label: type_label.to_string(), min, max, value }
}

fn race() -> ElementPlan {
    ElementPlan::Enum {
        label: "character::Race".to_string(),
        variants: vec!["None".to_string(), "Human".to_string(), "Orc".to_string()],
    }
}

fn item_link() -> ElementPlan {
    ElementPlan::Link { table: 0, label: "item::Item".to_string() }
}

fn unresolved(id: u32) -> Scalar {
    Scalar::Link(Link::Unresolved(DataId(id)))
}

#[test]
fn cells_are_read_as_integers() {
    assert_eq!(Cell::Int(-7).as_i64(), Some(-7));
    assert_eq!(float("2.75", 2).as_i64(), Some(2));
    assert_eq!(Cell::Bool(true).as_i64(), Some(1));
    assert_eq!(Cell::Bool(false).as_i64(), Some(0));
    assert_eq!(Cell::Empty.as_i64(), None);
}

#[test]
fn a_text_cell_is_read_as_the_integer_it_writes() {
    assert_eq!(text("42").as_i64(), Some(42));
    assert_eq!(text("-42").as_i64(), Some(-42));
    assert_eq!(text("forty-two").as_i64(), None);
    assert_eq!(text("").as_i64(), None);
}

#[test]
fn cells_are_written_out() {
    assert_eq!(Cell::Int(-7).to_text(), "-7");
    assert_eq!(float("2.75", 2).to_text(), "2.75");
    assert_eq!(text("abc").to_text(), "abc");
    assert_eq!(Cell::Bool(true).to_text(), "true");
    assert_eq!(Cell::Bool(false).to_text(), "false");
    assert_eq!(Cell::Empty.to_text(), "");
}

#[test]
fn only_text_cells_give_a_string_and_only_boolean_cells_a_boolean() {
    assert_eq!(text("abc").get_string(), Some("abc"));
    assert_eq!(Cell::Int(1).get_string(), None);
    assert_eq!(Cell::Bool(true).get_bool(), Some(true));
    assert_eq!(Cell::Int(1).get_bool(), None);
    assert!(Cell::Empty.is_empty());
    assert!(!text("").is_empty());
}

#[test]
fn check_range_accepts_the_bounds() {
    assert_eq!(check_range(0, 0, 10, "u8"), Ok(()));
    assert_eq!(check_range(10, 0, 10, "u8"), Ok(()));
    assert_eq!(check_range(11, 0, 10, "u8"), Err(out_of_range("u8", 0, 10, 11)));
    assert_eq!(check_range(-1, 0, 10, "u8"), Err(out_of_range("u8", 0, 10, -1)));
}

#[test]
fn to_integer_names_the_type_and_the_cell() {
    assert_eq!(to_integer(&Cell::Int(3), "u16"), Ok(3));
    assert_eq!(to_integer(&text("x"), "u16"), Err(invalid_format("u16", "integer", "x")));
    assert_eq!(to_integer(&Cell::Empty, "u16"), Err(invalid_format("u16", "integer", "")));
}

#[test]
fn an_id_is_an_unsigned_32_bit_integer() {
    assert_eq!(parse_scalar(&Cell::Int(5), ScalarAllType::Id), Ok(Scalar::Id(DataId(5))));
    assert_eq!(
        parse_scalar(&Cell::Int(4294967295), ScalarAllType::Id),
        Ok(Scalar::Id(DataId(u32::MAX)))
    );
    assert_eq!(
        parse_scalar(&Cell::Int(4294967296), ScalarAllType::Id),
        Err(out_of_range("u32", 0, 4294967295, 4294967296))
    );
    assert_eq!(
        parse_scalar(&Cell::Int(-1), ScalarAllType::Id),
        Err(out_of_range("u32", 0, 4294967295, -1))
    );
    assert_eq!(parse_scalar(&text("12"), ScalarAllType::Id), Ok(Scalar::Id(DataId(12))));
    assert_eq!(
        parse_scalar(&text("abc"), ScalarAllType::Id),
        Err(invalid_format("DataId", "integer", "abc"))
    );
}

#[test]
fn an_id_is_read_from_a_cell_and_from_a_text() {
    assert_eq!(DataId::parse(&Cell::Int(5)), Ok(DataId(5)));
    assert_eq!(DataId::parse(&Cell::Int(-5)), Err(out_of_range("u32", 0, 4294967295, -5)));
    assert_eq!(DataId::parse(&Cell::Empty), Err(invalid_format("DataId", "integer", "")));
    assert_eq!(DataId::parse_string("4294967295"), Ok(DataId(u32::MAX)));
    assert_eq!(
        DataId::parse_string("4294967296"),
        Err(invalid_format("u32", "integer", "4294967296"))
    );
    assert_eq!(DataId::from(9u32), DataId(9));
    assert_eq!(DataId::from(9i32), DataId(9));
    assert_eq!(DataId::from(-1i32), DataId(u32::MAX));
    assert_eq!(DataId::from(i32::MIN), DataId(1u32 << 31));
    assert_eq!(DataId(9).value(), 9);
    assert_eq!(DataId(9).to_text(), "DataId(9)");
    assert_eq!(Link::Unresolved(DataId(9)).to_text(), "Link(DataId(9))");
}

#[test]
fn signed_integers_are_held_to_their_range() {
    assert_eq!(parse_scalar(&Cell::Int(-128), ScalarAllType::Int8), Ok(Scalar::Int(-128)));
    assert_eq!(
        parse_scalar(&Cell::Int(128), ScalarAllType::Int8),
        Err(out_of_range("i8", -128, 127, 128))
    );
    assert_eq!(
        parse_scalar(&Cell::Int(-32769), ScalarAllType::Int16),
        Err(out_of_range("i16", -32768, 32767, -32769))
    );
    assert_eq!(
        parse_scalar(&Cell::Int(2147483648), ScalarAllType::Int32),
        Err(out_of_range("i32", -2147483648, 2147483647, 2147483648))
    );
    assert_eq!(
        parse_scalar(&Cell::Int(i64::MIN), ScalarAllType::Int64),
        Ok(Scalar::Int(i64::MIN))
    );
    assert_eq!(parse_scalar(&float("9.99", 9), ScalarAllType::Int32), Ok(Scalar::Int(9)));
    assert_eq!(parse_scalar(&Cell::Bool(true), ScalarAllType::Int8), Ok(Scalar::Int(1)));
}

#[test]
fn unsigned_integers_are_held_to_their_range() {
    assert_eq!(parse_scalar(&Cell::Int(65535), ScalarAllType::Uint16), Ok(Scalar::Uint(65535)));
    assert_eq!(
        parse_scalar(&Cell::Int(65536), ScalarAllType::Uint16),
        Err(out_of_range("u16", 0, 65535, 65536))
    );
    assert_eq!(
        parse_scalar(&Cell::Int(-1), ScalarAllType::Uint32),
        Err(out_of_range("u32", 0, 4294967295, -1))
    );
}

#[test]
fn an_eight_bit_unsigned_cell_is_held_to_its_range() {
    assert_eq!(parse_scalar(&Cell::Int(0), ScalarAllType::Uint8), Ok(Scalar::Uint(0)));
    assert_eq!(parse_scalar(&Cell::Int(200), ScalarAllType::Uint8), Ok(Scalar::Uint(200)));
    assert_eq!(parse_scalar(&Cell::Int(255), ScalarAllType::Uint8), Ok(Scalar::Uint(255)));
    assert_eq!(
        parse_scalar(&Cell::Int(256), ScalarAllType::Uint8),
        Err(out_of_range("u8", 0, 255, 256))
    );
    assert_eq!(
        parse_scalar(&Cell::Int(-1), ScalarAllType::Uint8),
        Err(out_of_range("u8", 0, 255, -1))
    );
    assert_eq!(
        parse_scalar(&Cell::Empty, ScalarAllType::Uint8),
        Err(invalid_format("u8", "integer", ""))
    );
}

#[test]
fn a_64_bit_unsigned_cell_takes_no_negative_integer() {
    assert_eq!(parse_scalar(&Cell::Int(7), ScalarAllType::Uint64), Ok(Scalar::Uint(7)));
    assert_eq!(
        parse_scalar(&Cell::Int(i64::MAX), ScalarAllType::Uint64),
        Ok(Scalar::Uint(i64::MAX as u64))
    );
    assert_eq!(
        parse_scalar(&Cell::Int(-1), ScalarAllType::Uint64),
        Err(out_of_range("u64", 0, i64::MAX, -1))
    );
}

#[test]
fn nothing_is_read_from_a_cell_of_another_kind() {
    let date = Cell::Other("2024-01-01T00:00:00".to_string());
    assert_eq!(date.as_i64(), None);
    assert_eq!(date.get_string(), None);
    assert_eq!(date.get_bool(), None);
    assert!(!date.is_empty());
    assert_eq!(date.to_text(), "2024-01-01T00:00:00");
    assert_eq!(
        parse_scalar(&date, ScalarAllType::String),
        Err(invalid_format("String", "string", "2024-01-01T00:00:00"))
    );
    assert_eq!(
        parse_scalar(&date, ScalarAllType::Float64),
        Err(invalid_format("f64", "float", "2024-01-01T00:00:00"))
    );
    assert_eq!(
        parse_scalar(&date, ScalarAllType::Int32),
        Err(invalid_format("i32", "integer", "2024-01-01T00:00:00"))
    );
}

#[test]
fn booleans_strings_and_floats_are_read_from_cells() {
    assert_eq!(parse_scalar(&Cell::Bool(true), ScalarAllType::Bool), Ok(Scalar::Bool(true)));
    assert_eq!(
        parse_scalar(&Cell::Int(1), ScalarAllType::Bool),
        Err(invalid_format("bool", "bool", "1"))
    );
    assert_eq!(
        parse_scalar(&text("  Short Sword \n"), ScalarAllType::String),
        Ok(Scalar::Text("Short Sword".to_string()))
    );
    assert_eq!(
        parse_scalar(&Cell::Int(3), ScalarAllType::String),
        Err(invalid_format("String", "string", "3"))
    );
    assert_eq!(
        parse_scalar(&float("1.5", 1), ScalarAllType::Float32),
        Ok(Scalar::Float("1.5".to_string()))
    );
    assert_eq!(
        parse_scalar(&Cell::Int(2), ScalarAllType::Float64),
        Ok(Scalar::Float("2".to_string()))
    );
    assert_eq!(
        parse_scalar(&Cell::Empty, ScalarAllType::Float32),
        Err(invalid_format("f32", "float", ""))
    );
}

#[test]
fn dates_and_durations_have_no_reading() {
    assert_eq!(
        parse_scalar(&text("2024-01-01"), ScalarAllType::Datetime),
        Err(invalid_format("chrono::DateTime", "supported type", "2024-01-01"))
    );
    assert_eq!(
        parse_scalar_string("1h", ScalarAllType::Duration),
        Err(invalid_format("chrono::Duration", "supported type", "1h"))
    );
}

#[test]
fn scalar_labels_name_the_types() {
    assert_eq!(scalar_label_text(ScalarAllType::Id), "DataId");
    assert_eq!(scalar_label_text(ScalarAllType::Uint16), "u16");
    assert_eq!(scalar_label_text(ScalarAllType::Float64), "f64");
    assert_eq!(scalar_label_text(ScalarAllType::String), "String");
    assert_eq!(scalar_label_text(ScalarAllType::Duration), "chrono::Duration");
}

#[test]
fn scalars_are_read_from_texts() {
    assert_eq!(parse_scalar_string("12", ScalarAllType::Uint8), Ok(Scalar::Uint(12)));
    assert_eq!(parse_scalar_string("255", ScalarAllType::Uint8), Ok(Scalar::Uint(255)));
    assert_eq!(
        parse_scalar_string("256", ScalarAllType::Uint8),
        Err(invalid_format("u8", "integer", "256"))
    );
    assert_eq!(parse_scalar_string("-5", ScalarAllType::Int16), Ok(Scalar::Int(-5)));
    assert_eq!(
        parse_scalar_string("-5", ScalarAllType::Uint16),
        Err(invalid_format("u16", "integer", "-5"))
    );
    assert_eq!(parse_scalar_string("7", ScalarAllType::Id), Ok(Scalar::Id(DataId(7))));
    assert_eq!(
        parse_scalar_string("x", ScalarAllType::Id),
        Err(invalid_format("u32", "integer", "x"))
    );
    assert_eq!(
        parse_scalar_string("18446744073709551615", ScalarAllType::Uint64),
        Ok(Scalar::Uint(u64::MAX))
    );
    assert_eq!(parse_scalar_string("true", ScalarAllType::Bool), Ok(Scalar::Bool(true)));
    assert_eq!(parse_scalar_string("false", ScalarAllType::Bool), Ok(Scalar::Bool(false)));
    assert_eq!(
        parse_scalar_string("True", ScalarAllType::Bool),
        Err(invalid_format("bool", "bool", "True"))
    );
    assert_eq!(
        parse_scalar_string(" a ", ScalarAllType::String),
        Ok(Scalar::Text(" a ".to_string()))
    );
    assert_eq!(
        parse_scalar_string("0.25", ScalarAllType::Float32),
        Ok(Scalar::Float("0.25".to_string()))
    );
}

#[test]
fn string_to_integer_reads_every_integer_type() {
    assert_eq!(string_to_integer("-128", ScalarAllType::Int8), Ok(Scalar::Int(-128)));
    assert_eq!(
        string_to_integer("-129", ScalarAllType::Int8),
        Err(invalid_format("i8", "integer", "-129"))
    );
    assert_eq!(string_to_integer("65535", ScalarAllType::Uint16), Ok(Scalar::Uint(65535)));
    assert_eq!(string_to_integer("+3", ScalarAllType::Uint32), Ok(Scalar::Uint(3)));
    assert_eq!(
        string_to_integer("9223372036854775807", ScalarAllType::Int64),
        Ok(Scalar::Int(i64::MAX))
    );
    assert_eq!(
        string_to_integer("9223372036854775808", ScalarAllType::Int64),
        Err(invalid_format("i64", "integer", "9223372036854775808"))
    );
}

#[test]
fn variants_are_matched_by_their_exact_name() {
    assert_eq!(parse_element(&text("Human"), &race()), Ok(Scalar::Enum(1)));
    assert_eq!(parse_element(&text(" Orc "), &race()), Ok(Scalar::Enum(2)));
    assert_eq!(parse_element(&text("None"), &race()), Ok(Scalar::Enum(0)));
    assert_eq!(
        parse_element(&text("human"), &race()),
        Err(ParseError::InvalidEnumValue {
            type_label: "character::Race".to_string(),
            value: "human".to_string(),
        })
    );
    assert_eq!(
        parse_element(&Cell::Int(1), &race()),
        Err(invalid_format("String", "string", "1"))
    );
    assert_eq!(parse_element_string("Orc", &race()), Ok(Scalar::Enum(2)));
    assert_eq!(
        parse_element_string(" Orc", &race()),
        Err(ParseError::InvalidEnumValue {
            type_label: "character::Race".to_string(),
            value: " Orc".to_string(),
        })
    );
}

#[test]
fn a_link_is_read_as_the_id_of_its_target() {
    assert_eq!(parse_element(&Cell::Int(9), &item_link()), Ok(unresolved(9)));
    assert_eq!(parse_element_string("9", &item_link()), Ok(unresolved(9)));
    assert_eq!(
        parse_element(&Cell::Int(-9), &item_link()),
        Err(out_of_range("u32", 0, 4294967295, -9))
    );
    assert_eq!(
        parse_element_string("nine", &item_link()),
        Err(invalid_format("u32", "integer", "nine"))
    );
}

#[test]
fn tuple_items_stand_between_parentheses() {
    assert_eq!(parse_tuple_string("(1, 2)", 2), Ok(vec!["1".to_string(), "2".to_string()]));
    assert_eq!(parse_tuple_string("( a ,b )", 2), Ok(vec!["a".to_string(), "b".to_string()]));
    assert_eq!(
        parse_tuple_string("(1,2,3)", 2),
        Ok(vec!["1".to_string(), "2".to_string(), "3".to_string()])
    );
    assert_eq!(parse_tuple_string("()", 1), Ok(vec!["".to_string()]));
}

#[test]
fn a_tuple_without_its_parentheses_is_refused() {
    assert_eq!(parse_tuple_string("1, 2", 2), Err(invalid_format("tuple", "wrappers", "1, 2")));
    assert_eq!(parse_tuple_string("(", 2), Err(invalid_format("tuple", "wrappers", "(")));
    assert_eq!(parse_tuple_string("", 2), Err(invalid_format("tuple", "wrappers", "")));
    assert_eq!(parse_tuple_string("(1, 2]", 2), Err(invalid_format("tuple", "wrappers", "(1, 2]")));
    assert_eq!(
        parse_tuple_string(" (1, 2)", 2),
        Err(invalid_format("tuple", "wrappers", " (1, 2)"))
    );
}

#[test]
fn a_tuple_with_too_few_items_is_refused() {
    assert_eq!(
        parse_tuple_string("(1)", 2),
        Err(ParseError::InvalidItemCount {
            type_label: "tuple".to_string(),
            expected: 2,
            actual: 1,
        })
    );
}

#[test]
fn a_tuple_is_read_component_by_component() {
    let kind = KindPlan::Tuple(vec![item_link(), ElementPlan::Scalar(ScalarAllType::Uint16)]);
    assert_eq!(
        parse(&text(" (5, 10) "), &kind),
        Ok(Element::Tuple(vec![unresolved(5), Scalar::Uint(10)]))
    );
    assert_eq!(
        parse_string("(5,10)", &kind),
        Ok(Element::Tuple(vec![unresolved(5), Scalar::Uint(10)]))
    );
    assert_eq!(parse(&text("(5, x)"), &kind), Err(invalid_format("u16", "integer", "x")));
    assert_eq!(parse(&text("(y, x)"), &kind), Err(invalid_format("u32", "integer", "y")));
    assert_eq!(parse(&Cell::Int(5), &kind), Err(invalid_format("tuple", "string", "5")));
    assert_eq!(
        parse(&text("(5)"), &kind),
        Err(ParseError::InvalidItemCount {
            type_label: "tuple".to_string(),
            expected: 2,
            actual: 1,
        })
    );
}

#[test]
fn a_single_value_is_read_from_the_whole_cell() {
    let kind = KindPlan::One(ElementPlan::Scalar(ScalarAllType::Uint32));
    assert_eq!(parse(&Cell::Int(8), &kind), Ok(Element::One(Scalar::Uint(8))));
    assert_eq!(parse_string("8", &kind), Ok(Element::One(Scalar::Uint(8))));
}

#[test]
fn an_empty_cell_is_the_absent_value() {
    let kind = KindPlan::One(ElementPlan::Scalar(ScalarAllType::Uint32));
    assert_eq!(parse_optional(&Cell::Empty, &kind), Ok(None));
    assert_eq!(parse_optional(&Cell::Int(3), &kind), Ok(Some(Element::One(Scalar::Uint(3)))));
    assert_eq!(
        parse_optional(&text(""), &kind),
        Err(invalid_format("u32", "integer", ""))
    );
}

#[test]
fn a_list_is_read_item_by_item() {
    let kind = KindPlan::One(ElementPlan::Scalar(ScalarAllType::Uint32));
    let one = |v: u64| Element::One(Scalar::Uint(v));
    assert_eq!(parse_multi(&text("[1, 2, 3]"), &kind), Ok(vec![one(1), one(2), one(3)]));
    assert_eq!(parse_multi(&text("  [ 1 ,2 ]  "), &kind), Ok(vec![one(1), one(2)]));
    assert_eq!(parse_multi(&text("[]"), &kind), Ok(vec![]));
    assert_eq!(parse_multi(&text("[ ]"), &kind), Ok(vec![]));
    assert_eq!(parse_multi(&text("[1,2,]"), &kind), Ok(vec![one(1), one(2)]));
}

#[test]
fn a_list_of_tuples_is_parted_outside_the_parentheses() {
    let kind = KindPlan::Tuple(vec![item_link(), ElementPlan::Scalar(ScalarAllType::Uint16)]);
    assert_eq!(
        parse_multi(&text("[(1, 50), (2, 25)]"), &kind),
        Ok(vec![
            Element::Tuple(vec![unresolved(1), Scalar::Uint(50)]),
            Element::Tuple(vec![unresolved(2), Scalar::Uint(25)]),
        ])
    );
}

#[test]
fn a_list_that_is_no_list_is_refused() {
    let kind = KindPlan::One(ElementPlan::Scalar(ScalarAllType::Uint32));
    assert_eq!(parse_multi(&Cell::Int(1), &kind), Err(invalid_format("array", "string", "1")));
    assert_eq!(parse_multi(&text("1, 2"), &kind), Err(invalid_format("array", "wrappers", "1, 2")));
    assert_eq!(parse_multi(&text(" [ "), &kind), Err(invalid_format("array", "wrappers", "[")));
    assert_eq!(parse_multi(&text("[1,,2]"), &kind), Err(invalid_format("u32", "integer", "")));
    assert_eq!(parse_multi(&text("[1, b, c]"), &kind), Err(invalid_format("u32", "integer", "b")));
}

fn field(name: &str, column: usize, kind: KindPlan, cardinality: Cardinality) -> FieldPlan {
    FieldPlan {
        name: name.to_string(),
        column,
        kind,
        cardinality,
        constraints: Vec::new(),
        label: String::new(),
    }
}

fn scalar(t: ScalarAllType) -> KindPlan {
    KindPlan::One(ElementPlan::Scalar(t))
}

fn weapon_plan() -> TablePlan {
    TablePlan {
        label: "item::Weapon".to_string(),
        concrete: true,
        workbook: "weapon.ods".to_string(),
        sheet: "Weapon".to_string(),
        fields_count: 4,
        fields: vec![
            field("id", 0, scalar(ScalarAllType::Id), Cardinality::Single),
            field("name", 1, scalar(ScalarAllType::String), Cardinality::Single),
            field("weight", 2, scalar(ScalarAllType::Uint16), Cardinality::Single),
            field("damage", 3, scalar(ScalarAllType::Uint32), Cardinality::Single),
        ],
        parent: None,
    }
}

#[test]
fn a_value_is_read_by_the_cardinality_of_its_field() {
    let single = field("a", 0, scalar(ScalarAllType::Uint32), Cardinality::Single);
    let optional = field("a", 0, scalar(ScalarAllType::Uint32), Cardinality::Optional);
    let multi = field("a", 0, scalar(ScalarAllType::Uint32), Cardinality::Multi);
    assert_eq!(
        parse_value(&Cell::Int(4), &single),
        Ok(Value::Single(Element::One(Scalar::Uint(4))))
    );
    assert_eq!(parse_value(&Cell::Empty, &optional), Ok(Value::Optional(None)));
    assert_eq!(
        parse_value(&Cell::Int(4), &optional),
        Ok(Value::Optional(Some(Element::One(Scalar::Uint(4)))))
    );
    assert_eq!(
        parse_value(&text("[4]"), &multi),
        Ok(Value::Multi(vec![Element::One(Scalar::Uint(4))]))
    );
    assert_eq!(parse_value(&Cell::Empty, &single), Err(invalid_format("u32", "integer", "")));
}

#[test]
fn a_row_is_read_field_by_field() {
    let row = vec![Cell::Int(1), text(" Sword "), Cell::Int(3), Cell::Int(10)];
    assert_eq!(
        Row::parse(&row, &weapon_plan()),
        Ok(Row {
            id: DataId(1),
            values: vec![
                Value::Single(Element::One(Scalar::Id(DataId(1)))),
                Value::Single(Element::One(Scalar::Text("Sword".to_string()))),
                Value::Single(Element::One(Scalar::Uint(3))),
                Value::Single(Element::One(Scalar::Uint(10))),
            ],
        })
    );
}

#[test]
fn a_row_may_have_more_cells_than_the_table_has_fields() {
    let row = vec![Cell::Int(1), text("Sword"), Cell::Int(3), Cell::Int(10), text("note")];
    assert!(Row::parse(&row, &weapon_plan()).is_ok());
}

#[test]
fn a_row_with_too_few_cells_is_refused_with_no_column_named() {
    let row = vec![Cell::Int(1), text("Sword")];
    assert_eq!(
        Row::parse(&row, &weapon_plan()),
        Err((String::new(), ParseError::InvalidColumnCount { expected: 4, actual: 2 }))
    );
}

#[test]
fn a_row_without_cells_has_no_id() {
    let mut plan = weapon_plan();
    plan.fields_count = 0;
    plan.fields = Vec::new();
    assert_eq!(
        Row::parse(&Vec::new(), &plan),
        Err((String::new(), ParseError::InvalidColumnCount { expected: 1, actual: 0 }))
    );
}

#[test]
fn a_cell_that_cannot_be_read_names_its_field() {
    let row = vec![Cell::Int(1), text("Sword"), text("heavy"), Cell::Int(10)];
    assert_eq!(
        Row::parse(&row, &weapon_plan()),
        Err(("weight".to_string(), invalid_format("u16", "integer", "heavy")))
    );
    let row = vec![Cell::Empty, text("Sword"), Cell::Int(3), Cell::Int(10)];
    assert_eq!(
        Row::parse(&row, &weapon_plan()),
        Err(("id".to_string(), invalid_format("DataId", "integer", "")))
    );
}

#[test]
fn fields_that_are_not_loaded_keep_their_columns() {
    let plan = TablePlan {
        label: "LinkTest".to_string(),
        concrete: true,
        workbook: "link_test.ods".to_string(),
        sheet: "LinkTest".to_string(),
        fields_count: 3,
        fields: vec![
            field("id", 0, scalar(ScalarAllType::Id), Cardinality::Single),
            field("last", 2, scalar(ScalarAllType::Bool), Cardinality::Single),
        ],
        parent: None,
    };
    let row = vec![Cell::Int(4), text("for the client only"), Cell::Bool(true)];
    assert_eq!(
        Row::parse(&row, &plan),
        Ok(Row {
            id: DataId(4),
            values: vec![
                Value::Single(Element::One(Scalar::Id(DataId(4)))),
                Value::Single(Element::One(Scalar::Bool(true))),
            ],
        })
    );
}
