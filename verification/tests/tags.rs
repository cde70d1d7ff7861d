use ccmk4::recipes::tags::{normalize_separators, TagEntry, Tags, TAG_MARKER};

fn strings(v: &[&str]) -> Vec<String> {
    v.iter().map(|s| s.to_string()).collect()
}

fn resolved(tags: &Tags, token: &str) -> Vec<String> {
    let mut v = tags.resolve(token);
    v.sort();
    v
}

#[test]
fn literal_tokens_resolve_to_themselves() {
    let mut tags = Tags::new();
    tags.add("minecraft:planks".to_string(), strings(&["minecraft:oak_planks"]));
    assert_eq!(resolved(&tags, "minecraft:planks"), strings(&["minecraft:planks"]));
    assert_eq!(resolved(&tags, "minecraft:stone"), strings(&["minecraft:stone"]));
}

#[test]
fn nested_tags_expand_and_cycles_end() {
    let mut tags = Tags::new();
    tags.add("minecraft:logs".to_string(), strings(&["#minecraft:oak_logs", "minecraft:birch_log"]));
    tags.add("minecraft:oak_logs".to_string(), strings(&["minecraft:oak_log", "minecraft:oak_wood", "#minecraft:logs"]));
    tags.add("minecraft:boats".to_string(), strings(&["#minecraft:chest_boats", "minecraft:oak_boat", "minecraft:oak_boat"]));
    assert_eq!(
        resolved(&tags, "#minecraft:logs"),
        strings(&["minecraft:birch_log", "minecraft:oak_log", "minecraft:oak_wood"])
    );
    assert_eq!(resolved(&tags, "#minecraft:oak_logs"), resolved(&tags, "#minecraft:logs"));
    assert_eq!(resolved(&tags, "#minecraft:boats"), strings(&["minecraft:oak_boat"]));
}

#[test]
fn unknown_tags_resolve_to_nothing() {
    let tags = Tags::new();
    assert!(tags.resolve("#minecraft:nothing").is_empty());
    assert!(tags.resolve("#").is_empty());
}

#[test]
fn re_adding_a_tag_replaces_its_members() {
    let mut tags = Tags::new();
    tags.add("minecraft:wool".to_string(), strings(&["minecraft:white_wool"]));
    tags.add("minecraft:wool".to_string(), strings(&["minecraft:red_wool", "minecraft:blue_wool"]));
    assert_eq!(
        resolved(&tags, "#minecraft:wool"),
        strings(&["minecraft:blue_wool", "minecraft:red_wool"])
    );
}

#[test]
fn tag_entries_name_their_id() {
    assert_eq!(TagEntry::Id("minecraft:stone".to_string()).id(), "minecraft:stone");
    assert_eq!(TagEntry::Object { id: "#minecraft:logs".to_string() }.id(), "#minecraft:logs");
}

#[test]
fn tag_files_register_under_the_minecraft_namespace() {
    let mut tags = Tags::new();
    let entries = vec![
        TagEntry::Id("minecraft:oak_log".to_string()),
        TagEntry::Object { id: "#minecraft:birch_logs".to_string() },
    ];
    tags.add_file("logs/oak", &entries);
    tags.add("minecraft:birch_logs".to_string(), strings(&["minecraft:birch_log"]));
    assert_eq!(
        resolved(&tags, "#minecraft:logs/oak"),
        strings(&["minecraft:birch_log", "minecraft:oak_log"])
    );
    assert!(tags.resolve("#logs/oak").is_empty());
}

#[test]
fn tag_file_paths_use_slashes_whatever_the_separator() {
    assert_eq!(normalize_separators("wooden\\planks\\oak"), "wooden/planks/oak");
    assert_eq!(normalize_separators("logs/oak"), "logs/oak");
    assert_eq!(normalize_separators(""), "");
    let mut tags = Tags::new();
    tags.add_file("logs\\oak", &vec![TagEntry::Id("minecraft:oak_log".to_string())]);
    assert_eq!(resolved(&tags, "#minecraft:logs/oak"), strings(&["minecraft:oak_log"]));
    assert!(tags.resolve("#minecraft:logs\\oak").is_empty());
}

#[test]
fn only_the_tag_marker_makes_a_token_a_tag() {
    assert_eq!(TAG_MARKER, '#');
    let mut tags = Tags::new();
    tags.add("minecraft:logs".to_string(), strings(&["minecraft:oak_log"]));
    assert_eq!(resolved(&tags, "#minecraft:logs"), strings(&["minecraft:oak_log"]));
    assert_eq!(resolved(&tags, "$minecraft:logs"), strings(&["$minecraft:logs"]));
    assert_eq!(resolved(&tags, "minecraft:logs"), strings(&["minecraft:logs"]));
}
