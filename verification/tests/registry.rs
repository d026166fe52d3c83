use registry_builder::registry::{
    collect_registries, compile_registries, encode_registries, encode_registry, identify,
    CompileError, RegistryMappings,
};
use registry_builder::wire::has_room;

fn path(text: &str) -> Vec<String> {
    text.split('/').map(|s| s.to_string()).collect()
}

fn paths(texts: &[&str]) -> Vec<Vec<String>> {
    texts.iter().map(|t| path(t)).collect()
}

fn pair(registry: &str, entry: &str) -> Option<(String, String)> {
    Some((registry.to_string(), entry.to_string()))
}

#[test]
fn identify_names_registry_and_entry() {
    assert_eq!(
        identify(&path("damage_type/fall.json")),
        pair("minecraft:damage_type", "minecraft:fall")
    );
    assert_eq!(
        identify(&path("worldgen/biome/plains.json")),
        pair("minecraft:worldgen/biome", "minecraft:plains")
    );
    assert_eq!(identify(&path("a/b.c.json")), pair("minecraft:a", "minecraft:b.c"));
}

#[test]
fn identify_passes_over_files_at_the_root() {
    assert_eq!(identify(&path("fall.json")), None);
    assert_eq!(identify(&Vec::new()), None);
    assert_eq!(identify(&vec![String::new(), "fall.json".to_string()]), None);
}

#[test]
fn identify_passes_over_the_tag_subtree() {
    assert_eq!(identify(&path("tags/damage_type/bypasses_armor.json")), None);
    assert_eq!(identify(&path("worldgen/tags/x.json")), None);
    assert_eq!(
        identify(&path("tagsx/damage_type.json")),
        pair("minecraft:tagsx", "minecraft:damage_type")
    );
}

#[test]
fn identify_passes_over_other_files() {
    assert_eq!(identify(&path("damage_type/fall.txt")), None);
    assert_eq!(identify(&path("damage_type/.json")), None);
    assert_eq!(identify(&path("damage_type/fall")), None);
}

#[test]
fn insert_keeps_entries_sorted_and_distinct() {
    let mut mappings = RegistryMappings::new();
    for entry in ["minecraft:fire", "minecraft:fall", "minecraft:wither", "minecraft:fall"] {
        assert_eq!(
            mappings.insert("minecraft:damage_type".to_string(), entry.to_string()),
            Ok(())
        );
    }
    assert_eq!(mappings.names, vec!["minecraft:damage_type"]);
    assert_eq!(
        mappings.entries,
        vec![vec!["minecraft:fall", "minecraft:fire", "minecraft:wither"]]
    );
}

#[test]
fn insert_keeps_registries_sorted() {
    let mut mappings = RegistryMappings::new();
    for (registry, entry) in [("m:c", "x"), ("m:a", "y"), ("m:b", "z"), ("m:a", "x")] {
        assert_eq!(mappings.insert(registry.to_string(), entry.to_string()), Ok(()));
    }
    assert_eq!(mappings.names, vec!["m:a", "m:b", "m:c"]);
    assert_eq!(mappings.entries, vec![vec!["x", "y"], vec!["z"], vec!["x"]]);
}

#[test]
fn ids_are_ranks() {
    let mut mappings = RegistryMappings::new();
    for entry in ["minecraft:fire", "minecraft:fall", "minecraft:wither"] {
        mappings.insert("minecraft:damage_type".to_string(), entry.to_string()).unwrap();
    }
    assert_eq!(mappings.id_of("minecraft:damage_type", "minecraft:fall"), Some(0));
    assert_eq!(mappings.id_of("minecraft:damage_type", "minecraft:fire"), Some(1));
    assert_eq!(mappings.id_of("minecraft:damage_type", "minecraft:wither"), Some(2));
    assert_eq!(mappings.id_of("minecraft:damage_type", "minecraft:unknown"), None);
    assert_eq!(mappings.id_of("minecraft:biome", "minecraft:fall"), None);
    assert_eq!(mappings.find("minecraft:damage_type"), Some(0));
    assert_eq!(mappings.find("minecraft:biome"), None);
}

#[test]
fn ids_cover_zero_to_count_without_gaps() {
    let out = compile_registries(&paths(&[
        "item/stick.json",
        "item/apple.json",
        "item/bow.json",
        "item/apple.json",
        "block/stone.json",
        "item/arrow.json",
    ]))
    .unwrap();
    for (registry, entries) in out.mappings.names.iter().zip(out.mappings.entries.iter()) {
        let mut seen = vec![false; entries.len()];
        for entry in entries {
            let id = out.mappings.id_of(registry, entry).unwrap() as usize;
            assert!(!seen[id]);
            seen[id] = true;
            assert_eq!(&entries[id], entry);
        }
        assert!(seen.iter().all(|s| *s));
    }
    assert_eq!(out.mappings.entries[1].len(), 4);
}

#[test]
fn registry_packet_layout() {
    let entries = vec!["minecraft:fall".to_string(), "minecraft:fire".to_string()];
    let mut expected = vec![21u8];
    expected.extend_from_slice(b"minecraft:damage_type");
    expected.push(2);
    expected.push(14);
    expected.extend_from_slice(b"minecraft:fall");
    expected.push(0);
    expected.push(14);
    expected.extend_from_slice(b"minecraft:fire");
    expected.push(0);
    assert_eq!(encode_registry("minecraft:damage_type", &entries), expected);
}

#[test]
fn registry_packet_without_entries() {
    assert_eq!(encode_registry("r", &Vec::new()), vec![1, b'r', 0]);
}

#[test]
fn registry_packet_counts_with_a_varint() {
    let entries: Vec<String> = (0..200).map(|i| format!("e{:03}", i)).collect();
    let bytes = encode_registry("r", &entries);
    assert_eq!(&bytes[..4], &[1, b'r', 0xc8, 0x01]);
    assert_eq!(bytes.len(), 4 + 200 * 6);
    assert_eq!(&bytes[4..10], &[4, b'e', b'0', b'0', b'0', 0]);
}

#[test]
fn collect_groups_by_directory() {
    let mappings = collect_registries(&paths(&[
        "damage_type/fire.json",
        "worldgen/biome/plains.json",
        "damage_type/fall.json",
        "readme.json",
        "damage_type/notes.txt",
        "tags/damage_type/is_fire.json",
        "worldgen/biome/desert.json",
    ]))
    .unwrap();
    assert_eq!(mappings.names, vec!["minecraft:damage_type", "minecraft:worldgen/biome"]);
    assert_eq!(
        mappings.entries,
        vec![
            vec!["minecraft:fall", "minecraft:fire"],
            vec!["minecraft:desert", "minecraft:plains"]
        ]
    );
}

#[test]
fn collect_of_nothing_is_empty() {
    let mappings = collect_registries(&Vec::new()).unwrap();
    assert!(mappings.names.is_empty());
    assert!(mappings.entries.is_empty());
    assert_eq!(encode_registries(&mappings), Vec::new());
}

#[test]
fn compile_yields_one_file_per_registry() {
    let out = compile_registries(&paths(&[
        "worldgen/biome/plains.json",
        "damage_type/fire.json",
        "damage_type/fall.json",
    ]))
    .unwrap();
    assert_eq!(out.files.len(), 2);
    assert_eq!(out.files[0].name, "minecraft_damage_type.bin");
    assert_eq!(out.files[1].name, "minecraft_worldgen_biome.bin");
    assert_eq!(
        out.files[0].bytes,
        encode_registry("minecraft:damage_type", &out.mappings.entries[0])
    );
    let mut expected = vec![24u8];
    expected.extend_from_slice(b"minecraft:worldgen/biome");
    expected.push(1);
    expected.push(16);
    expected.extend_from_slice(b"minecraft:plains");
    expected.push(0);
    assert_eq!(out.files[1].bytes, expected);
}

#[test]
fn compile_is_deterministic() {
    let input = paths(&["b/y.json", "a/x.json", "b/x.json", "a/z.json", "c/d/e.json"]);
    let first = compile_registries(&input);
    let second = compile_registries(&input);
    assert_eq!(first, second);
    let mut shuffled = input.clone();
    shuffled.reverse();
    assert_eq!(compile_registries(&shuffled), first);
}

#[test]
fn entries_and_registries_are_strictly_increasing() {
    let out = compile_registries(&paths(&[
        "b/y.json", "a/x.json", "b/x.json", "a/z.json", "a/x.json", "B/x.json", "a/Z.json",
    ]))
    .unwrap();
    assert!(out.mappings.names.windows(2).all(|w| w[0].as_bytes() < w[1].as_bytes()));
    for entries in &out.mappings.entries {
        assert!(entries.windows(2).all(|w| w[0].as_bytes() < w[1].as_bytes()));
    }
    assert_eq!(out.mappings.names, vec!["minecraft:B", "minecraft:a", "minecraft:b"]);
    assert_eq!(out.mappings.entries[1], vec!["minecraft:Z", "minecraft:x", "minecraft:z"]);
}

#[test]
fn built_mappings_are_valid() {
    let out = compile_registries(&paths(&["b/y.json", "a/x.json", "b/x.json"])).unwrap();
    assert!(out.mappings.is_valid());
    assert!(RegistryMappings::new().is_valid());
}

#[test]
fn mappings_out_of_order_are_not_valid() {
    let names = |list: &[&str]| -> Vec<String> { list.iter().map(|s| s.to_string()).collect() };
    let unsorted = RegistryMappings { names: names(&["b", "a"]), entries: vec![names(&["x"]); 2] };
    assert!(!unsorted.is_valid());
    let twice = RegistryMappings { names: names(&["a"]), entries: vec![names(&["x", "x"])] };
    assert!(!twice.is_valid());
    let empty = RegistryMappings { names: names(&["a"]), entries: vec![Vec::new()] };
    assert!(!empty.is_valid());
    let lopsided = RegistryMappings { names: names(&["a", "b"]), entries: vec![names(&["x"])] };
    assert!(!lopsided.is_valid());
    let fine = RegistryMappings { names: names(&["a", "b"]), entries: vec![names(&["x", "y"]); 2] };
    assert!(fine.is_valid());
}

#[test]
fn has_room_for_ordinary_names() {
    assert!(has_room(""));
    assert!(has_room("minecraft:damage_type"));
}

#[test]
fn too_long_a_name_is_refused() {
    let huge = "a".repeat((i32::MAX as usize) + 1);
    assert!(!has_room(&huge));
    let mut mappings = RegistryMappings::new();
    mappings.insert("m:r".to_string(), "m:e".to_string()).unwrap();
    let before = mappings.clone();
    assert_eq!(mappings.insert("m:r".to_string(), huge), Err(CompileError::TooLarge));
    assert_eq!(mappings, before);
}
