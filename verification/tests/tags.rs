use registry_builder::json::TagFile;
use registry_builder::registry::{compile_registries, CompileError, RegistryMappings};
use registry_builder::tags::{
    collect_tags, compile_tags, encode_tags, identify_tag, resolve, wanted, TagSource, TagTable,
};
use serde_json::{Number, Value};

fn path(text: &str) -> Vec<String> {
    text.split('/').map(|s| s.to_string()).collect()
}

fn list(names: &[&str]) -> Vec<String> {
    names.iter().map(|s| s.to_string()).collect()
}

fn source(path_text: &str, content: &str) -> TagSource {
    TagSource { path: path(path_text), content: content.to_string() }
}

fn pair(registry: &str, tag: &str) -> Option<(String, String)> {
    Some((registry.to_string(), tag.to_string()))
}

fn damage_types() -> RegistryMappings {
    let mut mappings = RegistryMappings::new();
    mappings.insert("minecraft:damage_type".to_string(), "minecraft:fire".to_string()).unwrap();
    mappings.insert("minecraft:damage_type".to_string(), "minecraft:fall".to_string()).unwrap();
    mappings
}

fn strings(items: &[&str]) -> Value {
    Value::Array(items.iter().map(|s| Value::String(s.to_string())).collect())
}

fn object(members: Vec<(&str, Value)>) -> Value {
    let mut map = serde_json::Map::new();
    for (key, value) in members {
        map.insert(key.to_string(), value);
    }
    Value::Object(map)
}

#[test]
fn identify_tag_names_registry_and_tag() {
    assert_eq!(
        identify_tag(&path("damage_type/bypasses_armor.json")),
        pair("minecraft:damage_type", "minecraft:bypasses_armor")
    );
    assert_eq!(
        identify_tag(&path("item/tools/axes.json")),
        pair("minecraft:item", "minecraft:tools/axes")
    );
    assert_eq!(
        identify_tag(&path("worldgen/biome/is_hot/all.json")),
        pair("minecraft:worldgen", "minecraft:biome/is_hot/all")
    );
}

#[test]
fn identify_tag_passes_over_what_is_no_tag() {
    assert_eq!(identify_tag(&path("bypasses_armor.json")), None);
    assert_eq!(identify_tag(&Vec::new()), None);
    assert_eq!(identify_tag(&path("damage_type/bypasses_armor.txt")), None);
    assert_eq!(identify_tag(&path("damage_type/.json")), None);
}

#[test]
fn tag_file_lists_its_values() {
    let parsed = TagFile::parse(r##"{"values": ["minecraft:fall", "#minecraft:is_fire"]}"##);
    assert_eq!(parsed.values, vec!["minecraft:fall", "#minecraft:is_fire"]);
}

#[test]
fn tag_file_may_hold_other_keys() {
    let parsed = TagFile::parse(r#"{"replace": false, "values": ["a", "b", "a"], "x": [1, {}]}"#);
    assert_eq!(parsed.values, vec!["a", "b", "a"]);
}

#[test]
fn tag_file_with_escapes() {
    let parsed = TagFile::parse(r#"{"values": ["a\"b", "grün"]}"#);
    assert_eq!(parsed.values, vec!["a\"b", "gr\u{fc}n"]);
}

#[test]
fn tag_file_without_values_lists_nothing() {
    assert!(TagFile::parse("{}").values.is_empty());
    assert!(TagFile::parse(r#"{"value": ["a"]}"#).values.is_empty());
    assert!(TagFile::parse(r#"{"values": []}"#).values.is_empty());
}

#[test]
fn tag_file_that_is_no_json_lists_nothing() {
    assert!(TagFile::parse("").values.is_empty());
    assert!(TagFile::parse("not json").values.is_empty());
    assert!(TagFile::parse(r#"{"values": ["a""#).values.is_empty());
    assert!(TagFile::parse(r#"{"values": ["a"]} trailing"#).values.is_empty());
}

#[test]
fn tag_file_with_malformed_values_lists_nothing() {
    assert!(TagFile::parse(r#"{"values": "a"}"#).values.is_empty());
    assert!(TagFile::parse(r#"{"values": {"a": "b"}}"#).values.is_empty());
    assert!(TagFile::parse(r#"{"values": ["a", 1]}"#).values.is_empty());
    assert!(TagFile::parse(r#"{"values": ["a", {"id": "b", "required": false}]}"#)
        .values
        .is_empty());
    assert!(TagFile::parse(r#"{"values": null}"#).values.is_empty());
    assert!(TagFile::parse(r#"["a", "b"]"#).values.is_empty());
    assert!(TagFile::parse(r#""values""#).values.is_empty());
}

#[test]
fn from_document_reads_the_values_member() {
    let doc = object(vec![("replace", Value::Bool(false)), ("values", strings(&["x", "y"]))]);
    assert_eq!(TagFile::from_document(&doc).values, vec!["x", "y"]);
}

#[test]
fn from_document_wants_an_object_with_a_list_of_strings() {
    assert!(TagFile::from_document(&Value::Null).values.is_empty());
    assert!(TagFile::from_document(&strings(&["x"])).values.is_empty());
    assert!(TagFile::from_document(&object(vec![("other", strings(&["x"]))])).values.is_empty());
    assert!(TagFile::from_document(&object(vec![("values", Value::String("x".to_string()))]))
        .values
        .is_empty());
    let mixed = Value::Array(vec![Value::String("x".to_string()), Value::Number(Number::from(1))]);
    assert!(TagFile::from_document(&object(vec![("values", mixed)])).values.is_empty());
    assert_eq!(TagFile::empty().values, Vec::<String>::new());
}

#[test]
fn resolve_drops_indirect_and_unknown_references() {
    let mappings = damage_types();
    assert_eq!(mappings.entries[0], vec!["minecraft:fall", "minecraft:fire"]);
    let references = list(&["minecraft:fall", "#minecraft:is_burning", "minecraft:unknown"]);
    assert_eq!(resolve(&references, &mappings.entries[0]), vec![0]);
}

#[test]
fn resolve_keeps_order_and_repetitions() {
    let entries = list(&["m:a", "m:b", "m:c"]);
    let references = list(&["m:c", "m:a", "#m:b", "m:c", "m:x", "m:b", "m:a"]);
    assert_eq!(resolve(&references, &entries), vec![2, 0, 2, 1, 0]);
    assert_eq!(resolve(&Vec::new(), &entries), Vec::<i32>::new());
    assert_eq!(resolve(&references, &Vec::new()), Vec::<i32>::new());
}

#[test]
fn resolved_ids_are_ids_of_the_registry() {
    let entries = list(&["m:a", "m:b", "m:c"]);
    let references = list(&["m:c", "m:zz", "m:a", "#m:a", "", "m:b"]);
    for id in resolve(&references, &entries) {
        assert!(0 <= id && (id as usize) < entries.len());
    }
}

#[test]
fn table_keeps_registries_and_tags_sorted() {
    let mut table = TagTable::new();
    table.insert("m:item".to_string(), "m:tools".to_string(), vec![3, 1]).unwrap();
    table.insert("m:block".to_string(), "m:logs".to_string(), vec![]).unwrap();
    table.insert("m:item".to_string(), "m:axes".to_string(), vec![7]).unwrap();
    assert_eq!(table.registries, vec!["m:block", "m:item"]);
    assert_eq!(table.groups[0].names, vec!["m:logs"]);
    assert_eq!(table.groups[0].ids, vec![Vec::<i32>::new()]);
    assert_eq!(table.groups[1].names, vec!["m:axes", "m:tools"]);
    assert_eq!(table.groups[1].ids, vec![vec![7], vec![3, 1]]);
}

#[test]
fn table_replaces_a_tag_that_is_set_again() {
    let mut table = TagTable::new();
    table.insert("m:item".to_string(), "m:tools".to_string(), vec![3, 1]).unwrap();
    table.insert("m:item".to_string(), "m:tools".to_string(), vec![2]).unwrap();
    assert_eq!(table.registries, vec!["m:item"]);
    assert_eq!(table.groups[0].names, vec!["m:tools"]);
    assert_eq!(table.groups[0].ids, vec![vec![2]]);
}

#[test]
fn table_refuses_too_long_a_name() {
    let huge = "t".repeat((i32::MAX as usize) + 1);
    let mut table = TagTable::new();
    table.insert("m:item".to_string(), "m:tools".to_string(), vec![1]).unwrap();
    let before = table.clone();
    assert_eq!(table.insert("m:item".to_string(), huge, vec![1]), Err(CompileError::TooLarge));
    assert_eq!(table, before);
}

#[test]
fn tag_packet_layout() {
    let mut table = TagTable::new();
    table.insert("m:b".to_string(), "m:t".to_string(), vec![300, 0]).unwrap();
    table.insert("m:a".to_string(), "m:u".to_string(), vec![]).unwrap();
    table.insert("m:b".to_string(), "m:s".to_string(), vec![5]).unwrap();
    let mut expected = vec![2u8];
    expected.extend_from_slice(&[3, b'm', b':', b'a', 1]);
    expected.extend_from_slice(&[3, b'm', b':', b'u', 0]);
    expected.extend_from_slice(&[3, b'm', b':', b'b', 2]);
    expected.extend_from_slice(&[3, b'm', b':', b's', 1, 5]);
    expected.extend_from_slice(&[3, b'm', b':', b't', 2, 0xac, 0x02, 0]);
    assert_eq!(encode_tags(&table), expected);
}

#[test]
fn empty_tag_packet_is_a_count_of_zero() {
    assert_eq!(encode_tags(&TagTable::new()), vec![0]);
}

#[test]
fn wanted_files_define_tags_of_known_registries() {
    let mappings = damage_types();
    assert!(wanted(&path("damage_type/bypasses_armor.json"), &mappings));
    assert!(wanted(&path("damage_type/sub/dir/x.json"), &mappings));
    assert!(!wanted(&path("biome/is_hot.json"), &mappings));
    assert!(!wanted(&path("damage_type/bypasses_armor.txt"), &mappings));
    assert!(!wanted(&path("damage_type.json"), &mappings));
}

#[test]
fn unknown_registry_is_skipped() {
    let mappings = damage_types();
    let files = vec![
        source("biome/is_hot.json", r#"{"values": ["minecraft:fall"]}"#),
        source("damage_type/is_fire.json", r#"{"values": ["minecraft:fire"]}"#),
        source("enchantment/curse.json", r#"{"values": ["minecraft:fire"]}"#),
    ];
    let table = collect_tags(&files, &mappings).unwrap();
    assert_eq!(table.registries, vec!["minecraft:damage_type"]);
    assert_eq!(table.groups.len(), 1);
    assert_eq!(table.groups[0].names, vec!["minecraft:is_fire"]);
    let without = vec![files[1].clone()];
    assert_eq!(collect_tags(&without, &mappings).unwrap(), table);
    assert_eq!(compile_tags(&without, &mappings), compile_tags(&files, &mappings));
}

#[test]
fn only_unknown_registries_give_an_empty_packet() {
    let mappings = damage_types();
    let files = vec![source("biome/is_hot.json", r#"{"values": ["minecraft:fall"]}"#)];
    let out = compile_tags(&files, &mappings).unwrap();
    assert!(out.table.registries.is_empty());
    assert_eq!(out.file.bytes, vec![0]);
}

#[test]
fn malformed_tag_file_yields_an_empty_tag() {
    let mappings = damage_types();
    let files = vec![
        source("damage_type/broken.json", "{ this is not json"),
        source("damage_type/no_values.json", r#"{"replace": true}"#),
        source("damage_type/good.json", r#"{"values": ["minecraft:fire"]}"#),
    ];
    let table = collect_tags(&files, &mappings).unwrap();
    assert_eq!(table.registries, vec!["minecraft:damage_type"]);
    assert_eq!(
        table.groups[0].names,
        vec!["minecraft:broken", "minecraft:good", "minecraft:no_values"]
    );
    assert_eq!(table.groups[0].ids, vec![vec![], vec![1], vec![]]);
}

#[test]
fn the_later_of_two_files_for_one_tag_counts() {
    let mappings = damage_types();
    let files = vec![
        source("damage_type/t.json", r#"{"values": ["minecraft:fire"]}"#),
        source("damage_type/t.json", r#"{"values": ["minecraft:fall", "minecraft:fire"]}"#),
    ];
    let table = collect_tags(&files, &mappings).unwrap();
    assert_eq!(table.groups[0].names, vec!["minecraft:t"]);
    assert_eq!(table.groups[0].ids, vec![vec![0, 1]]);
}

#[test]
fn tags_and_registries_are_strictly_increasing() {
    let mut mappings = RegistryMappings::new();
    for registry in ["minecraft:item", "minecraft:block", "minecraft:fluid"] {
        mappings.insert(registry.to_string(), "minecraft:x".to_string()).unwrap();
    }
    let files = vec![
        source("item/z.json", "{}"),
        source("fluid/water.json", "{}"),
        source("item/a/b.json", "{}"),
        source("block/logs.json", "{}"),
        source("item/a.json", "{}"),
        source("item/Z.json", "{}"),
    ];
    let table = collect_tags(&files, &mappings).unwrap();
    assert_eq!(table.registries, vec!["minecraft:block", "minecraft:fluid", "minecraft:item"]);
    assert!(table.registries.windows(2).all(|w| w[0].as_bytes() < w[1].as_bytes()));
    for group in &table.groups {
        assert!(group.names.windows(2).all(|w| w[0].as_bytes() < w[1].as_bytes()));
    }
    assert_eq!(
        table.groups[2].names,
        vec!["minecraft:Z", "minecraft:a", "minecraft:a/b", "minecraft:z"]
    );
}

#[test]
fn compile_tags_is_deterministic() {
    let mappings = damage_types();
    let files = vec![
        source("damage_type/b.json", r#"{"values": ["minecraft:fire", "minecraft:fall"]}"#),
        source("damage_type/a.json", r##"{"values": ["#minecraft:b", "minecraft:fall"]}"##),
    ];
    let first = compile_tags(&files, &mappings);
    let second = compile_tags(&files, &mappings);
    assert_eq!(first, second);
    let mut reversed = files.clone();
    reversed.reverse();
    assert_eq!(compile_tags(&reversed, &mappings), first);
}

#[test]
fn end_to_end() {
    let registries = compile_registries(&vec![
        path("damage_type/fall.json"),
        path("damage_type/fire.json"),
        path("tags/damage_type/bypasses_armor.json"),
    ])
    .unwrap();
    assert_eq!(registries.files.len(), 1);
    assert_eq!(registries.files[0].name, "minecraft_damage_type.bin");
    let mut expected = vec![21u8];
    expected.extend_from_slice(b"minecraft:damage_type");
    expected.push(2);
    expected.push(14);
    expected.extend_from_slice(b"minecraft:fall");
    expected.push(0);
    expected.push(14);
    expected.extend_from_slice(b"minecraft:fire");
    expected.push(0);
    assert_eq!(registries.files[0].bytes, expected);
    assert_eq!(registries.mappings.id_of("minecraft:damage_type", "minecraft:fall"), Some(0));
    assert_eq!(registries.mappings.id_of("minecraft:damage_type", "minecraft:fire"), Some(1));

    let files = vec![source("damage_type/bypasses_armor.json", r#"{"values":["minecraft:fall"]}"#)];
    let tags = compile_tags(&files, &registries.mappings).unwrap();
    assert_eq!(tags.file.name, "packet_tags.bin");
    let mut expected = vec![1u8, 21];
    expected.extend_from_slice(b"minecraft:damage_type");
    expected.push(1);
    expected.push(24);
    expected.extend_from_slice(b"minecraft:bypasses_armor");
    expected.push(1);
    expected.push(0);
    assert_eq!(tags.file.bytes, expected);
    assert_eq!(tags.table.registries, vec!["minecraft:damage_type"]);
    assert_eq!(tags.table.groups[0].names, vec!["minecraft:bypasses_armor"]);
    assert_eq!(tags.table.groups[0].ids, vec![vec![0]]);
}
