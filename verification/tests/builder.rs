use ccmk4::builder::BuilderError;
use ccmk4::recipes::recipe::{Recipe, RecipeResult, StringOrArray};
use ccmk4::recipes::recipe_type::RecipeType;
use ccmk4::recipes::tags::Tags;
use ccmk4::recipes::tree_builder::TreeBuilder;
use ccmk4::recipes::Item;
use ccmk4::Ccmk4Builder;

fn strings(v: &[&str]) -> Vec<String> {
    v.iter().map(|s| s.to_string()).collect()
}

fn sorted(mut v: Vec<(String, u32)>) -> Vec<(String, u32)> {
    v.sort();
    v
}

#[test]
fn slot_and_commit_need_a_recipe_in_progress() {
    let mut builder = Ccmk4Builder::new();
    assert_eq!(builder.recipe_slot(strings(&["a"])), Err(BuilderError::SlotWithoutBegin));
    assert_eq!(builder.recipe_commit(), Err(BuilderError::CommitWithoutBegin));
    builder.recipe_begin("minecraft:stick".to_string(), 1);
    assert_eq!(builder.recipe_slot(strings(&["a"])), Ok(()));
    assert_eq!(builder.recipe_commit(), Ok(()));
    assert_eq!(builder.recipe_commit(), Err(BuilderError::CommitWithoutBegin));
}

#[test]
fn empty_build_is_empty() {
    let mut builder = Ccmk4Builder::new();
    assert!(builder.build(&Vec::new()).is_empty());
}

#[test]
fn builds_resolve_tags_and_reuse_the_index() {
    let mut builder = Ccmk4Builder::new();
    builder.add_tag("minecraft:planks".to_string(), strings(&["minecraft:oak_planks", "minecraft:birch_planks"]));
    builder.recipe_begin("minecraft:stick".to_string(), 4);
    builder.recipe_slot(strings(&["#minecraft:planks"])).unwrap();
    builder.recipe_slot(strings(&["#minecraft:planks"])).unwrap();
    builder.recipe_commit().unwrap();
    builder.recipe_begin("minecraft:oak_planks".to_string(), 0);
    builder.recipe_slot(strings(&["minecraft:oak_log"])).unwrap();
    builder.recipe_commit().unwrap();
    builder.recipe_begin("minecraft:oak_log".to_string(), 1);
    builder.recipe_slot(strings(&["minecraft:oak_planks"])).unwrap();
    builder.recipe_commit().unwrap();
    builder.recipe_begin("minecraft:birch_planks".to_string(), 2);
    builder.recipe_slot(strings(&["minecraft:stick"])).unwrap();
    builder.recipe_commit().unwrap();
    assert!(builder.build(&Vec::new()).is_empty());
    let inventory = strings(&["minecraft:oak_log"]);
    let first = sorted(builder.build(&inventory));
    let second = sorted(builder.build(&inventory));
    assert_eq!(
        first,
        vec![
            ("minecraft:birch_planks".to_string(), 2),
            ("minecraft:oak_log".to_string(), 1),
            ("minecraft:oak_planks".to_string(), 1),
            ("minecraft:stick".to_string(), 4),
        ]
    );
    assert_eq!(first, second);
    // Changing the tags invalidates the cached index.
    builder.add_tag("minecraft:planks".to_string(), strings(&["minecraft:birch_planks"]));
    assert!(builder.build(&Vec::new()).is_empty());
    let third = sorted(builder.build(&inventory));
    assert_eq!(third, vec![("minecraft:oak_log".to_string(), 1), ("minecraft:oak_planks".to_string(), 1)]);
}

#[test]
fn beginning_again_discards_the_unfinished_recipe() {
    let mut builder = Ccmk4Builder::new();
    builder.recipe_begin("minecraft:torch".to_string(), 4);
    builder.recipe_slot(strings(&["minecraft:diamond"])).unwrap();
    builder.recipe_begin("minecraft:torch".to_string(), 2);
    builder.recipe_slot(strings(&["minecraft:stick"])).unwrap();
    builder.recipe_commit().unwrap();
    assert_eq!(sorted(builder.build(&strings(&["minecraft:stick"]))), vec![("minecraft:torch".to_string(), 2)]);
}

#[test]
fn builder_agrees_with_tree_builder_on_tag_free_recipes() {

    let recipe = |ingredients: Vec<StringOrArray>, id: &str, count: u8| Recipe {
        recipe_type: RecipeType::CraftingShapeless,
        group: None,
        key: None,
        ingredients: Some(ingredients),
        pattern: None,
        result: Some(RecipeResult { id: id.to_string(), count }),
    };
    let one = |id: &str| StringOrArray::String(id.to_string());
    let any = |ids: &[&str]| StringOrArray::Array(strings(ids));
    let recipes = vec![
        recipe(vec![one("log")], "planks", 4),
        recipe(vec![one("planks")], "log", 0),
        recipe(vec![any(&["planks", "bamboo"]), one("planks")], "stick", 4),
        recipe(vec![one("stick"), one("gem")], "wand", 1),
        recipe(vec![one("wand")], "gem", 0),
    ];
    let mut builder = Ccmk4Builder::new();
    for r in &recipes {
        let res = r.result.as_ref().unwrap();
        builder.recipe_begin(res.id.clone(), res.count as u32);
        for source in r.ingredients.as_ref().unwrap() {
            let tokens = match source {
                StringOrArray::String(id) => vec![id.clone()],
                StringOrArray::Array(ids) => ids.clone(),
            };
            builder.recipe_slot(tokens).unwrap();
        }
        builder.recipe_commit().unwrap();
    }
    let tree = TreeBuilder::new(recipes);
    for inventory in [vec![], vec!["log"], vec!["gem"], vec!["log", "gem", "wand"]] {
        let ids = strings(&inventory);
        let items: Vec<Item> = ids.iter().map(|id| Item { id: id.clone(), quantity: 1 }).collect();
        let native = sorted(
            tree.build(items)
                .ok()
                .unwrap()
                .into_iter()
                .map(|i| (i.id, i.quantity as u32))
                .collect(),
        );
        assert_eq!(sorted(builder.build(&ids)), native);
    }
}

#[test]
fn builder_agrees_with_native_build_with_tags() {
    let recipe = |ingredients: Vec<StringOrArray>, id: &str, count: u8| Recipe {
        recipe_type: RecipeType::CraftingShapeless,
        group: None,
        key: None,
        ingredients: Some(ingredients),
        pattern: None,
        result: Some(RecipeResult { id: id.to_string(), count }),
    };
    let one = |id: &str| StringOrArray::String(id.to_string());
    let tag_pairs = vec![
        ("minecraft:planks", vec!["minecraft:oak_planks", "#minecraft:bamboo_planks"]),
        ("minecraft:bamboo_planks", vec!["minecraft:bamboo_planks", "#minecraft:planks"]),
    ];
    let recipes = vec![
        recipe(vec![one("minecraft:oak_log")], "minecraft:oak_planks", 4),
        recipe(vec![one("minecraft:oak_planks")], "minecraft:oak_log", 0),
        recipe(vec![one("#minecraft:planks"), one("#minecraft:planks")], "minecraft:stick", 4),
        recipe(vec![one("minecraft:stick")], "minecraft:bamboo_planks", 2),
    ];
    let mut tags = Tags::new();
    let mut builder = Ccmk4Builder::new();
    for (tag, members) in &tag_pairs {
        tags.add(tag.to_string(), strings(members));
        builder.add_tag(tag.to_string(), strings(members));
    }
    for r in &recipes {
        let res = r.result.as_ref().unwrap();
        builder.recipe_begin(res.id.clone(), res.count as u32);
        for source in r.ingredients.as_ref().unwrap() {
            let tokens = match source {
                StringOrArray::String(id) => vec![id.clone()],
                StringOrArray::Array(ids) => ids.clone(),
            };
            builder.recipe_slot(tokens).unwrap();
        }
        builder.recipe_commit().unwrap();
    }
    let tree = TreeBuilder::new(recipes);
    for inventory in [vec![], vec!["minecraft:oak_log"], vec!["minecraft:stick"]] {
        let ids = strings(&inventory);
        let items: Vec<Item> = ids.iter().map(|id| Item { id: id.clone(), quantity: 1 }).collect();
        let native = sorted(
            tree.build_with_tags(items, &tags)
                .ok()
                .unwrap()
                .into_iter()
                .map(|i| (i.id, i.quantity as u32))
                .collect(),
        );
        assert_eq!(sorted(builder.build(&ids)), native);
    }
    let items = vec![Item { id: "minecraft:stick".to_string(), quantity: 1 }];
    let with_tags = sorted(
        tree.build_with_tags(items, &tags).ok().unwrap().into_iter().map(|i| (i.id, i.quantity as u32)).collect(),
    );
    assert_eq!(
        with_tags,
        vec![("minecraft:bamboo_planks".to_string(), 2), ("minecraft:stick".to_string(), 4)]
    );
}

fn quantity_of(results: &[(String, u32)], id: &str) -> Option<u32> {
    results.iter().find(|(i, _)| i == id).map(|(_, q)| *q)
}

fn add_recipe(builder: &mut Ccmk4Builder, output: &str, count: u32, slot: &str) {
    builder.recipe_begin(output.to_string(), count);
    builder.recipe_slot(strings(&[slot])).unwrap();
    builder.recipe_commit().unwrap();
}

/// Planks, logs and ingots that are made only from one another, so that
/// none of them is a raw material and only the inventory supplies them.
fn planks_builder(stick_count: u32) -> Ccmk4Builder {
    let mut builder = untagged_planks_builder(stick_count);
    builder.add_tag("minecraft:planks".to_string(), strings(&["minecraft:oak_planks"]));
    builder
}

/// The same recipes with no tag registered yet.
fn untagged_planks_builder(stick_count: u32) -> Ccmk4Builder {
    let mut builder = Ccmk4Builder::new();
    add_recipe(&mut builder, "minecraft:stick", stick_count, "#minecraft:planks");
    for (a, b) in [
        ("minecraft:oak_planks", "minecraft:oak_log"),
        ("minecraft:birch_planks", "minecraft:birch_log"),
        ("minecraft:iron_ingot", "minecraft:iron_block"),
    ] {
        add_recipe(&mut builder, a, 1, b);
        add_recipe(&mut builder, b, 1, a);
    }
    builder
}

#[test]
fn builds_see_registrations_made_after_earlier_builds() {
    let inventory = strings(&["minecraft:oak_planks", "minecraft:iron_ingot"]);
    let mut used = planks_builder(4);
    let before = used.build(&inventory);
    assert_eq!(quantity_of(&before, "minecraft:stick"), Some(4));
    assert_eq!(quantity_of(&before, "minecraft:iron_bars"), None);
    let mut fresh = planks_builder(4);
    for builder in [&mut used, &mut fresh] {
        add_recipe(builder, "minecraft:iron_bars", 16, "minecraft:iron_ingot");
        builder.add_tag("minecraft:planks".to_string(), strings(&["minecraft:birch_planks"]));
    }
    let after = sorted(used.build(&inventory));
    assert_eq!(after, sorted(fresh.build(&inventory)));
    assert_eq!(quantity_of(&after, "minecraft:iron_bars"), Some(16));
    assert_eq!(quantity_of(&after, "minecraft:stick"), None);
}

#[test]
fn zero_yield_builds_like_yield_one() {
    let inventory = strings(&["minecraft:oak_planks"]);
    let mut zero = planks_builder(0);
    let mut one = planks_builder(1);
    let built = sorted(zero.build(&inventory));
    assert_eq!(quantity_of(&built, "minecraft:stick"), Some(1));
    assert_eq!(built, sorted(one.build(&inventory)));
}

#[test]
fn reregistered_tag_replaces_its_members_in_builds() {
    let mut twice = planks_builder(4);
    twice.add_tag("minecraft:planks".to_string(), strings(&["minecraft:birch_planks"]));
    let mut once = untagged_planks_builder(4);
    once.add_tag("minecraft:planks".to_string(), strings(&["minecraft:birch_planks"]));
    let oak = strings(&["minecraft:oak_planks"]);
    let birch = strings(&["minecraft:birch_planks"]);
    assert_eq!(quantity_of(&twice.build(&oak), "minecraft:stick"), None);
    assert_eq!(quantity_of(&twice.build(&birch), "minecraft:stick"), Some(4));
    assert_eq!(sorted(twice.build(&oak)), sorted(once.build(&oak)));
    assert_eq!(sorted(twice.build(&birch)), sorted(once.build(&birch)));
}
