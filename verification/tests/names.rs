use data_generator::name::{path_join, Name};

fn strings(items: &[&str]) -> Vec<String> {
    items.iter().map(|s| s.to_string()).collect()
}

#[test]
fn new_keeps_name_and_namespace() {
    let name = Name::new("weapon", strings(&["item", "weapon"]));
    assert_eq!(name.name, "weapon");
    assert_eq!(name.namespace, strings(&["item", "weapon"]));
}

#[test]
fn child_extends_the_namespace_by_its_own_name() {
    let root = Name::new("", Vec::new());
    let item = root.get_child("item");
    assert_eq!(item.name, "item");
    assert_eq!(item.namespace, strings(&["item"]));
    let weapon = item.get_child("weapon");
    assert_eq!(weapon.name, "weapon");
    assert_eq!(weapon.namespace, strings(&["item", "weapon"]));
    // The parent is left as it was.
    assert_eq!(item.namespace, strings(&["item"]));
}

#[test]
fn parent_namespace_drops_the_last_segment() {
    let weapon = Name::new("weapon", strings(&["item", "weapon"]));
    assert_eq!(weapon.parent_namespace().to_vec(), strings(&["item"]));
    let top = Name::new("link_test", strings(&["link_test"]));
    assert!(top.parent_namespace().is_empty());
    let root = Name::new("", Vec::new());
    assert!(root.parent_namespace().is_empty());
}

#[test]
fn entity_identifier_is_snake_case() {
    assert_eq!(Name::new("RaceStat", strings(&["RaceStat"])).as_entity(), "race_stat");
    assert_eq!(Name::new("random_box", strings(&["random_box"])).as_entity(), "random_box");
    assert_eq!(Name::new("XMLHttpRequest", Vec::new()).as_entity(), "xml_http_request");
}

#[test]
fn type_identifier_is_upper_camel_case() {
    let name = Name::new("race_stat", strings(&["character", "race_stat"]));
    assert_eq!(name.as_type(false), "RaceStat");
    assert_eq!(name.as_type(true), "character::RaceStat");
}

#[test]
fn type_identifier_of_a_top_level_entity_has_no_qualifier() {
    let name = Name::new("link_test", strings(&["link_test"]));
    assert_eq!(name.as_type(true), "LinkTest");
    assert_eq!(name.as_type(false), "LinkTest");
    let bare = Name::new("link_test", Vec::new());
    assert_eq!(bare.as_type(true), "LinkTest");
}

#[test]
fn type_identifier_joins_deep_namespaces() {
    let name = Name::new("short_sword", strings(&["item", "weapon", "short_sword"]));
    assert_eq!(name.as_type(true), "item::weapon::ShortSword");
}

#[test]
fn data_type_identifier_ends_in_data() {
    let name = Name::new("weapon", strings(&["item", "weapon"]));
    assert_eq!(name.as_data_type(false), "WeaponData");
    assert_eq!(name.as_data_type(true), "item::WeaponData");
}

#[test]
fn data_cell_identifier_is_shouting_snake_case() {
    assert_eq!(Name::new("RaceStat", Vec::new()).as_data_type_cell(), "RACE_STAT_DATA");
    assert_eq!(Name::new("weapon", Vec::new()).as_data_type_cell(), "WEAPON_DATA");
}

#[test]
fn full_dir_lies_below_the_base_directory() {
    let name = Name::new("weapon", strings(&["item", "weapon"]));
    assert_eq!(name.as_full_dir("gen"), "gen/item/weapon");
    assert_eq!(name.as_full_dir("gen/"), "gen/item/weapon");
    assert_eq!(name.as_full_dir(""), "item/weapon");
}

#[test]
fn full_dir_of_the_root_is_the_base_directory() {
    let root = Name::new("", Vec::new());
    assert_eq!(root.as_full_dir("gen"), "gen/");
    assert_eq!(root.as_full_dir("gen/"), "gen/");
}

#[test]
fn path_join_puts_one_separator_between() {
    assert_eq!(path_join("a", "b"), "a/b");
    assert_eq!(path_join("a/", "b"), "a/b");
    assert_eq!(path_join("", "b"), "b");
    assert_eq!(path_join("a", ""), "a/");
}

#[test]
fn path_join_lets_a_rooted_path_replace_the_base() {
    assert_eq!(path_join("a/b", "/c"), "/c");
}
