use jclass::ext::{compare_bytes, Extension, IndexStr};
use jclass::extract::{RecipeTypeMap, TagEntry, TagItem, TagsList};
use jclass::jvm::{ClassCounting, Complexity};
use jclass::loader::{ModData, OneOrMany};
use jclass::sizes::{bucket, compute_file_type_sizes, compute_mod_content_sizes, file_type, ModContentSizes, SizeOverflow, ASSETS, CLASSES, DATA, META, OTHER};
use jclass::zipext::{FileEntry, FileError};

fn deflate(data: &[u8]) -> Vec<u8> {
    let mut e = flate2::write::DeflateEncoder::new(Vec::new(), flate2::Compression::default());
    std::io::Write::write_all(&mut e, data).unwrap();
    e.finish().unwrap()
}

#[test]
fn stored_member_is_copied_out() {
    let archive = b"....hello world....".to_vec();
    let fe = FileEntry::new(11, 11, 4, Some(false));
    assert_eq!(fe.size(), 11);
    assert_eq!(fe.compressed(), 11);
    assert_eq!(fe.vec_from(&archive).unwrap(), b"hello world".to_vec());
    assert_eq!(fe.string_from(&archive).unwrap(), "hello world");
}

#[test]
fn deflated_member_is_inflated() {
    let text = "the quick brown fox jumps over the lazy dog, twice: the quick brown fox";
    let packed = deflate(text.as_bytes());
    let mut archive = vec![9u8; 3];
    archive.extend_from_slice(&packed);
    archive.extend_from_slice(&[7, 7]);
    let fe = FileEntry::new(text.len() as u64, packed.len() as u64, 3, Some(true));
    assert_eq!(fe.vec_from(&archive).unwrap(), text.as_bytes().to_vec());
    assert_eq!(fe.string_from(&archive).unwrap(), text);
}

#[test]
fn member_errors() {
    let archive = vec![1u8, 2, 3, 4];
    assert_eq!(FileEntry::new(2, 2, 0, None).vec_from(&archive).err(), Some(FileError::BadCompression));
    assert_eq!(FileEntry::new(8, 8, 1, Some(false)).vec_from(&archive).err(), Some(FileError::Truncated));
    assert_eq!(FileEntry::new(3, 4, 0, Some(true)).vec_from(&archive).err(), Some(FileError::Corrupt));
    let bad = vec![0xFFu8, 0xFE];
    assert_eq!(FileEntry::new(2, 2, 0, Some(false)).string_from(&bad).err(), Some(FileError::NotUtf8));
}

#[test]
fn join_one_or_many() {
    assert_eq!(OneOrMany::One("MIT".to_string()).join(", "), "MIT");
    let many = OneOrMany::Many(vec!["MIT".to_string(), "Apache-2.0".to_string(), "LGPL".to_string()]);
    assert_eq!(many.join(", "), "MIT, Apache-2.0, LGPL");
    assert_eq!(OneOrMany::<String>::Many(vec![]).join(", "), "");
}

#[test]
fn mod_slug() {
    let m = ModData::new("Name".to_string(), "examplemod".to_string(), "1.0".to_string(), None, None, None, None, None);
    assert_eq!(m.slug(), "examplemod");
}

#[test]
fn tag_entry_ids() {
    assert_eq!(TagEntry::Simple("minecraft:stone".to_string()).id(), "minecraft:stone");
    assert_eq!(TagEntry::Struct { id: "#forge:ores".to_string() }.id(), "#forge:ores");
    assert_eq!(TagsList::new().len(), 0);
    let _ = Complexity::new();
}

#[test]
fn index_str_num_keeps_both_parts() {
    let s = IndexStr::new("abc".to_string(), 4).num();
    assert_eq!(s.0, "abc");
    assert_eq!(s.1, 4);
}

#[test]
fn inheritance_numbers_names_once() {
    let mut inh = jclass::ext::Inheritance::new();
    assert_eq!(inh.find("b/B"), 0);
    assert_eq!(inh.find("a/A"), 1);
    assert_eq!(inh.find("b/B"), 0);
    assert_eq!(inh.add_inherit(0, "c/C"), 2);
    assert_eq!(inh.add_inherit(0, "a/A"), 1);
    assert_eq!(inh.name_by_index(2), Some("c/C"));
    assert_eq!(inh.name_by_index(1), Some("a/A"));
    assert_eq!(inh.name_by_index(9), None);
    assert_eq!(inh.iter_inherits(0), vec!["c/C", "a/A"]);
    assert!(inh.iter_inherits(1).is_empty());
}

#[test]
fn indexer_keeps_first_number() {
    let mut ix = jclass::ext::Indexer::new();
    let a = ix.find_or_insert("zeta");
    let b = ix.find_or_insert("alpha");
    let c = ix.find_or_insert("zeta");
    assert_eq!((a.0.as_str(), a.1), ("zeta", 0));
    assert_eq!((b.0.as_str(), b.1), ("alpha", 1));
    assert_eq!((c.0.as_str(), c.1), ("zeta", 0));
}

#[test]
fn byte_order_matches_str_order() {
    assert!(compare_bytes(b"abc", b"abd") < 0);
    assert!(compare_bytes(b"ab", b"abc") < 0);
    assert!(compare_bytes(b"b", b"abc") > 0);
    assert_eq!(compare_bytes(b"same", b"same"), 0);
}

#[test]
fn extension_by_path() {
    assert!(matches!(Extension::from_path("a/b/Foo.CLASS"), Extension::Class));
    assert!(matches!(Extension::from_path("data/x/tags/y.json"), Extension::Json));
    assert!(matches!(Extension::from_path("META-INF/MANIFEST.MF"), Extension::Mf));
    assert!(matches!(Extension::from_path("noext"), Extension::Empty));
    assert!(matches!(Extension::from_path("dir/.hidden"), Extension::Empty));
    match Extension::from_path("x/Readme.TXT") {
        Extension::Other(o) => assert_eq!(o, "txt"),
        _ => panic!("expected another extension"),
    }
    assert_eq!(Extension::Ogg.str(), "ogg");
    assert!(Extension::Ogg.matches("sounds/a.OGG"));
    assert!(!Extension::Ogg.matches("sounds/a.wav"));
    assert!(!Extension::Json.matches("json"));
}

fn strings(xs: &[&str]) -> Vec<String> {
    xs.iter().map(|x| x.to_string()).collect()
}

#[test]
fn recipe_maps_merge_per_type() {
    let shaped = "minecraft:crafting_shaped".to_string();
    let smelt = "minecraft:smelting".to_string();
    let stone = "create:stonecutting".to_string();
    let mut a = RecipeTypeMap::new();
    a.add(&shaped, "a:one".to_string());
    a.add(&smelt, "a:two".to_string());
    a.add(&shaped, "a:three".to_string());
    let mut b = RecipeTypeMap::new();
    b.add(&shaped, "b:one".to_string());
    b.add(&stone, "b:two".to_string());
    a.extend(&b);
    assert_eq!(a.get(&shaped), Some(&strings(&["a:one", "a:three", "b:one"])));
    assert_eq!(a.get(&smelt), Some(&strings(&["a:two"])));
    assert_eq!(a.get(&stone), Some(&strings(&["b:two"])));
    assert_eq!(a.get(&"none".to_string()), None);
}

fn counting(total: usize) -> ClassCounting {
    ClassCounting { total, fields: 1, methods: 2, code: vec![("run ()V".to_string(), total)] }
}

#[test]
fn complexity_takes_over_counts() {
    let (x, y, z) = ("a/X".to_string(), "a/Y".to_string(), "a/Z".to_string());
    let mut a = Complexity::new();
    a.insert(&x, counting(1));
    a.insert(&y, counting(2));
    let mut b = Complexity::new();
    b.insert(&y, counting(20));
    b.insert(&z, counting(30));
    a.extend(&b);
    assert_eq!(a.get(&x).map(|c| c.total), Some(1));
    assert_eq!(a.get(&y).map(|c| c.total), Some(20));
    assert_eq!(a.get(&z).map(|c| (c.total, c.code[0].1)), Some((30, 30)));
    let d = counting(5).duplicate();
    assert_eq!((d.total, d.fields, d.methods, d.code.clone()), (5, 1, 2, vec![("run ()V".to_string(), 5)]));
}

#[test]
fn oversized_member_is_refused() {
    let fe = FileEntry::new(u64::MAX, 4, 0, Some(true));
    assert_eq!(fe.vec_from(&[1, 2, 3, 4]).err(), Some(FileError::TooLarge));
}

#[test]
fn playable_files_are_sorted_sounds() {
    let names = strings(&["assets/m/sounds/b.ogg", "assets/m/lang/en.json", "assets/m/sounds/A.OGG", "assets/m/sounds/a.ogg", "x.ogg.txt"]);
    let p = jclass::extract::gather_playable_files(&names);
    assert_eq!(p.names(), &strings(&["assets/m/sounds/A.OGG", "assets/m/sounds/a.ogg", "assets/m/sounds/b.ogg"]));
    assert!(jclass::extract::gather_playable_files(&Vec::new()).names().is_empty());
}

fn entry(name: &str, size: u64, comp: u64) -> (String, FileEntry) {
    (name.to_string(), FileEntry::new(size, comp, 0, Some(true)))
}

#[test]
fn content_buckets() {
    assert_eq!(bucket("assets/m/textures/a.png"), ASSETS);
    assert_eq!(bucket("data/m/recipes/a.json"), DATA);
    assert_eq!(bucket("META-INF/mods.toml"), META);
    assert_eq!(bucket("META-INF/x.sf"), OTHER);
    assert_eq!(bucket("a/b/C.class"), CLASSES);
    assert_eq!(bucket("fabric.mod.json"), META);
    assert_eq!(bucket("pack.png"), OTHER);
    let entries = vec![
        entry("a/B.class", 100, 60),
        entry("a/C.class", 10, 6),
        entry("assets/m/x.png", 7, 7),
        entry("META-INF/MANIFEST.MF", 3, 2),
        entry("LICENSE", 1, 1),
    ];
    let m = compute_mod_content_sizes(&entries).unwrap();
    assert_eq!(m.get(CLASSES), [2, 110, 66]);
    assert_eq!(m.get(ASSETS), [1, 7, 7]);
    assert_eq!(m.get(META), [1, 3, 2]);
    assert_eq!(m.get(OTHER), [1, 1, 1]);
    assert_eq!(m.get(DATA), [0, 0, 0]);
    let mut twice = compute_mod_content_sizes(&entries).unwrap();
    twice.extend(&m);
    assert_eq!(twice.get(CLASSES), [4, 220, 132]);
    let huge = vec![entry("a/B.class", u64::MAX, 1), entry("a/C.class", u64::MAX, 1)];
    assert_eq!(compute_mod_content_sizes(&huge).err(), Some(SizeOverflow));
    assert_eq!(ModContentSizes::new().get(META), [0, 0, 0]);
}

#[test]
fn file_type_sizes() {
    assert_eq!(file_type("a/B.CLASS"), "class");
    assert_eq!(file_type("x.tar.GZ"), "gz");
    assert_eq!(file_type(".gitignore"), "");
    assert_eq!(file_type("trailing."), "");
    assert_eq!(file_type("LICENSE"), "");
    assert_eq!(file_type("ÄÖ.ÜBER"), "über");
    let entries = vec![entry("a/B.class", 100, 60), entry("a/C.CLASS", 10, 6), entry("LICENSE", 1, 1), entry("pack.png", 5, 4)];
    let m = compute_file_type_sizes(&entries).unwrap();
    assert_eq!(m.get(&"class".to_string()), Some([2, 110, 66]));
    assert_eq!(m.get(&"".to_string()), Some([1, 1, 1]));
    assert_eq!(m.get(&"png".to_string()), Some([1, 5, 4]));
    assert_eq!(m.get(&"json".to_string()), None);
    let mut both = compute_file_type_sizes(&entries).unwrap();
    both.extend(&compute_file_type_sizes(&vec![entry("x.png", 1, 1), entry("y.ogg", 2, 2)]).unwrap());
    assert_eq!(both.get(&"png".to_string()), Some([2, 6, 5]));
    assert_eq!(both.get(&"ogg".to_string()), Some([1, 2, 2]));
    let huge = vec![entry("a.bin", u64::MAX, 1), entry("b.bin", 1, 1)];
    assert_eq!(compute_file_type_sizes(&huge).err(), Some(SizeOverflow));
}

#[test]
fn tags_lists_merge_counts() {
    let (items, blocks) = ("items".to_string(), "blocks".to_string());
    let (logs, ores) = ("minecraft:logs".to_string(), "forge:ores".to_string());
    let oak = TagItem::Item("minecraft:oak_log".to_string());
    let birch = TagItem::Item("minecraft:birch_log".to_string());
    let nested = TagItem::Tag("minecraft:logs".to_string());
    let mut a = TagsList::new();
    a.add(&items, &logs, oak.duplicate());
    a.add(&items, &logs, oak.duplicate());
    a.add(&blocks, &ores, nested.duplicate());
    let mut b = TagsList::new();
    b.add(&items, &logs, oak.duplicate());
    b.add(&items, &logs, birch.duplicate());
    b.add(&items, &ores, nested.duplicate());
    a.extend(&b);
    assert_eq!(a.len(), 2);
    assert_eq!(a.count(&items, &logs, &oak), Some(3));
    assert_eq!(a.count(&items, &logs, &birch), Some(1));
    assert_eq!(a.count(&items, &ores, &nested), Some(1));
    assert_eq!(a.count(&blocks, &ores, &nested), Some(1));
    assert_eq!(a.count(&blocks, &logs, &oak), None);
    assert!(!oak.same(&birch));
    assert!(oak.same(&oak.duplicate()));
    assert!(!nested.same(&TagItem::Item("minecraft:logs".to_string())));
}

#[test]
fn inheritance_search_follows_edges_and_ends_on_cycles() {
    let mut inh = jclass::ext::Inheritance::new();
    let a = inh.find("A");
    let b = inh.add_inherit(a, "B");
    let c = inh.add_inherit(b, "C");
    inh.add_inherit(c, "A");
    let d = inh.find("D");
    assert!(inh.inherits(a, "A"));
    assert!(inh.inherits(a, "C"));
    assert!(inh.inherits(c, "B"));
    assert!(!inh.inherits(a, "D"));
    assert!(!inh.inherits(d, "A"));
    assert!(!inh.inherits(a, "Nope"));
    assert_eq!(inh.number_of("C"), Some(c));
    assert_eq!(inh.len(), 4);
}

#[test]
fn deflated_member_has_its_size() {
    let text = b"aaaaaaaaaaaaaaaaaaaaaaaaaaaaaaaaaaaaaaaaabbbbbbbbbbbbbbb";
    let packed = deflate(text);
    let fe = FileEntry::new(20, packed.len() as u64, 0, Some(true));
    assert_eq!(fe.vec_from(&packed).unwrap(), text[..20].to_vec());
}
