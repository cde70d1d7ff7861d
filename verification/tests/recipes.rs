use ccmk4::recipes::recipe::{Recipe, RecipeResult, StringOrArray};
use ccmk4::recipes::recipe_type::RecipeType;
use ccmk4::recipes::tree_builder::{recipe_slots, TreeBuilder};
use ccmk4::recipes::Item;

fn text(v: &serde_json::Value) -> String {
    v.as_str().unwrap().to_string()
}

fn ingredient(v: &serde_json::Value) -> StringOrArray {
    match v {
        serde_json::Value::String(s) => StringOrArray::String(s.clone()),
        serde_json::Value::Array(items) => StringOrArray::Array(items.iter().map(text).collect()),
        other => panic!("unexpected ingredient {other}"),
    }
}

/// Reads one recipe file's JSON into the library's recipe record.
fn recipe_from_json(source: &str) -> Recipe {
    let json: serde_json::Value = serde_json::from_str(source).unwrap();
    let recipe_type = RecipeType::try_from(text(&json["type"])).expect("Unknown RecipeType");
    Recipe {
        recipe_type,
        group: json.get("group").map(text),
        key: json
            .get("key")
            .map(|k| k.as_object().unwrap().iter().map(|(s, v)| (s.clone(), ingredient(v))).collect()),
        ingredients: json
            .get("ingredients")
            .map(|v| v.as_array().unwrap().iter().map(ingredient).collect()),
        pattern: json.get("pattern").map(ingredient),
        result: json.get("result").map(|r| RecipeResult {
            id: text(&r["id"]),
            count: r.get("count").map_or(0, |c| c.as_u64().unwrap() as u8),
        }),
    }
}

const RECIPE_FILES: [&str; 5] = [
    r##"{"type": "minecraft:crafting_shaped", "category": "misc", "key": {"#": "#minecraft:planks"},
        "pattern": ["#", "#"], "result": {"count": 4, "id": "minecraft:stick"}}"##,
    r##"{"type": "minecraft:crafting_shapeless", "category": "building", "group": "planks",
        "ingredients": ["#minecraft:oak_logs"], "result": {"count": 4, "id": "minecraft:oak_planks"}}"##,
    r##"{"type": "minecraft:smelting", "category": "misc", "cookingtime": 200, "experience": 0.1,
        "ingredient": "minecraft:sand", "result": {"id": "minecraft:glass"}}"##,
    r##"{"type": "minecraft:crafting_special_bookcloning", "category": "misc"}"##,
    r##"{"type": "MINECRAFT:Crafting_Shaped", "key": {"A": ["minecraft:iron_ingot", "minecraft:gold_ingot"]},
        "pattern": "AA", "result": {"count": 1, "id": "minecraft:chain"}}"##,
];

fn item(id: &str, quantity: u8) -> Item {
    Item { id: id.to_string(), quantity }
}

fn result(id: &str, count: u8) -> Option<RecipeResult> {
    Some(RecipeResult { id: id.to_string(), count })
}

fn shapeless(ingredients: Vec<StringOrArray>, output: &str, count: u8) -> Recipe {
    Recipe {
        recipe_type: RecipeType::CraftingShapeless,
        group: None,
        key: None,
        ingredients: Some(ingredients),
        pattern: None,
        result: result(output, count),
    }
}

fn one(id: &str) -> StringOrArray {
    StringOrArray::String(id.to_string())
}

fn sorted(items: Vec<Item>) -> Vec<(String, u8)> {
    let mut v: Vec<(String, u8)> = items.into_iter().map(|i| (i.id, i.quantity)).collect();
    v.sort();
    v
}

#[test]
fn parse_recipe_files() {
    let items = RECIPE_FILES.iter().map(|f| recipe_from_json(f)).collect::<Vec<_>>();
    assert_eq!(items.len(), 5);
    assert_eq!(items[0].recipe_type, RecipeType::CraftingShaped);
    assert_eq!(items[2].recipe_type, RecipeType::Smelting);
    assert_eq!(items[4].recipe_type, RecipeType::CraftingShaped);
    assert!(items[3].result.is_none());
    assert_eq!(items[2].result.as_ref().unwrap().count, 0);
    println!("All {} recipes successfully were parsed!", items.len());
}

#[test]
fn flatten_recipes() {
    let recipes = vec![
        shapeless(vec![one("minecraft:oak_log")], "minecraft:oak_planks", 4),
        shapeless(vec![one("minecraft:oak_planks")], "minecraft:stick", 4),
        shapeless(vec![one("minecraft:birch_log")], "minecraft:oak_planks", 2),
        Recipe { result: None, ..shapeless(vec![], "x", 1) },
    ];
    let flat = TreeBuilder::new(recipes).flat();
    assert_eq!(flat.len(), 2);
    assert_eq!(flat[0].0, "minecraft:oak_planks");
    let planks: Vec<(String, u8)> = flat[0].1.iter().map(|i| (i.id.clone(), i.quantity)).collect();
    assert_eq!(
        planks,
        vec![("minecraft:oak_planks".to_string(), 4), ("minecraft:oak_planks".to_string(), 2)]
    );
    assert_eq!(flat[1].0, "minecraft:stick");
    assert_eq!(flat[1].1.len(), 1);
}

#[test]
fn items_lists_each_output_once() {
    let recipes = vec![
        shapeless(vec![one("a")], "b", 1),
        shapeless(vec![one("c")], "b", 1),
        shapeless(vec![one("b")], "d", 1),
    ];
    let tree = TreeBuilder::new(recipes);
    let mut items = tree.items();
    items.sort();
    assert_eq!(items, vec!["b".to_string(), "d".to_string()]);
    let mut keys: Vec<String> = tree.flat().into_iter().map(|(k, _)| k).collect();
    keys.sort();
    assert_eq!(keys, items);
}

#[test]
fn recipe_type_names_ignore_case_and_namespace() {
    assert_eq!(RecipeType::from("minecraft:smelting".to_string()), RecipeType::Smelting);
    assert_eq!(RecipeType::from("smelting".to_string()), RecipeType::Smelting);
    assert_eq!(RecipeType::from("MINECRAFT:SMELTING".to_string()), RecipeType::Smelting);
    assert_eq!(
        RecipeType::from("Crafting_Special_Firework_Star_Fade".to_string()),
        RecipeType::CraftingSpecialFireworkStarFade
    );
    assert_eq!(RecipeType::from("minecraft:crafting_dye".to_string()), RecipeType::CraftingDye);
    assert_eq!(RecipeType::try_from("Minecraft:Stonecutting".to_string()), Some(RecipeType::Stonecutting));
    assert_eq!(RecipeType::try_from("crafting_dye".to_string()), None);
    assert_eq!(RecipeType::try_from("minecraft:brewing".to_string()), None);
}

#[test]
fn lowercase_names_follow_the_table() {
    assert_eq!(RecipeType::from_lowercase("minecraft:blasting"), Some(RecipeType::Blasting));
    assert_eq!(RecipeType::from_lowercase("campfire_cooking"), Some(RecipeType::CampfireCooking));
    assert_eq!(RecipeType::from_lowercase("Blasting"), None);
    assert_eq!(RecipeType::from_lowercase("crafting_dye"), None);
}

#[test]
fn recipe_slots_drop_output_empty_and_duplicate_slots() {
    let recipe = Recipe {
        recipe_type: RecipeType::CraftingShaped,
        group: None,
        key: Some(vec![
            ("#".to_string(), one("minecraft:stick")),
            ("X".to_string(), StringOrArray::Array(vec!["a".to_string(), "b".to_string(), "a".to_string()])),
            ("Y".to_string(), one("out")),
        ]),
        ingredients: Some(vec![
            StringOrArray::Array(vec!["b".to_string(), "out".to_string(), "a".to_string()]),
            one("minecraft:stick"),
        ]),
        pattern: None,
        result: result("out", 1),
    };
    let slots = recipe_slots(&recipe, &"out".to_string());
    let mut sets: Vec<Vec<String>> = slots
        .into_iter()
        .map(|mut s| {
            s.sort();
            s
        })
        .collect();
    sets.sort();
    assert_eq!(
        sets,
        vec![vec!["a".to_string(), "b".to_string()], vec!["minecraft:stick".to_string()]]
    );
}

#[test]
fn build_follows_recipe_chains() {
    let recipes = vec![
        shapeless(vec![one("minecraft:oak_log")], "minecraft:oak_planks", 4),
        shapeless(vec![one("minecraft:oak_planks"), one("minecraft:oak_planks")], "minecraft:stick", 4),
        shapeless(vec![one("minecraft:stick"), one("minecraft:coal")], "minecraft:torch", 4),
        shapeless(vec![one("minecraft:diamond"), one("minecraft:stick")], "minecraft:diamond_sword", 1),
        shapeless(vec![one("minecraft:diamond_block")], "minecraft:diamond", 9),
        shapeless(vec![one("minecraft:diamond")], "minecraft:diamond_block", 1),
    ];
    let tree = TreeBuilder::new(recipes);
    let out = sorted(tree.build(vec![item("minecraft:oak_log", 3)]).ok().unwrap());
    assert_eq!(
        out,
        vec![
            ("minecraft:oak_planks".to_string(), 4),
            ("minecraft:stick".to_string(), 4),
            ("minecraft:torch".to_string(), 4),
        ]
    );
    let out = sorted(tree.build(vec![item("minecraft:diamond", 1)]).ok().unwrap());
    assert_eq!(
        out,
        vec![
            ("minecraft:diamond".to_string(), 9),
            ("minecraft:diamond_block".to_string(), 1),
            ("minecraft:oak_planks".to_string(), 4),
            ("minecraft:stick".to_string(), 4),
            ("minecraft:diamond_sword".to_string(), 1),
            ("minecraft:torch".to_string(), 4),
        ]
        .into_iter()
        .collect::<std::collections::BTreeSet<_>>()
        .into_iter()
        .collect::<Vec<_>>()
    );
}

#[test]
fn build_uses_first_craftable_recipe_and_yield_zero_is_one() {
    let recipes = vec![
        shapeless(vec![one("gold")], "ring", 3),
        shapeless(vec![one("iron")], "ring", 0),
        shapeless(vec![one("sand")], "glass", 0),
    ];
    let tree = TreeBuilder::new(recipes);
    let out = sorted(tree.build(vec![item("iron", 1)]).ok().unwrap());
    assert_eq!(out, vec![("glass".to_string(), 1), ("ring".to_string(), 3)]);
}

#[test]
fn build_needs_an_option_for_every_slot() {
    let recipes = vec![
        shapeless(vec![one("a"), one("b")], "ab", 1),
        shapeless(vec![one("x")], "a", 1),
        shapeless(vec![one("y")], "b", 1),
        shapeless(vec![one("b")], "x", 1),
        shapeless(vec![one("a")], "y", 1),
    ];
    let tree = TreeBuilder::new(recipes);
    assert!(tree.build(vec![]).ok().unwrap().is_empty());
    let out = sorted(tree.build(vec![item("a", 1)]).ok().unwrap());
    assert_eq!(
        out,
        vec![
            ("a".to_string(), 1),
            ("ab".to_string(), 1),
            ("b".to_string(), 1),
            ("x".to_string(), 1),
            ("y".to_string(), 1),
        ]
    );
}

#[test]
fn build_more_inventory_never_crafts_less() {
    let recipes = vec![
        shapeless(vec![one("a")], "b", 2),
        shapeless(vec![one("b"), one("c")], "d", 1),
        shapeless(vec![one("d")], "c", 5),
    ];
    let tree = TreeBuilder::new(recipes);
    let small = sorted(tree.build(vec![item("a", 1)]).ok().unwrap());
    let large = sorted(tree.build(vec![item("a", 1), item("c", 1)]).ok().unwrap());
    assert_eq!(small, vec![("b".to_string(), 2)]);
    for entry in &small {
        assert!(large.iter().any(|e| e.0 == entry.0));
    }
    assert_eq!(large, vec![("b".to_string(), 2), ("c".to_string(), 5), ("d".to_string(), 1)]);
}

#[test]
fn random_draws_pick_a_full_inventory() {
    use_inventory_picks();
}

fn use_inventory_picks() {
    let items = vec!["a".to_string(), "b".to_string()];
    let draws: Vec<(usize, u8)> = (0..100).map(|i| (i % 3, (i % 63 + 1) as u8)).collect();
    let picked = ccmk4::recipes::inventory::pick_inventory(&items, &draws);
    assert_eq!(picked.len(), ccmk4::recipes::inventory::INVENTORY_SIZE);
    assert_eq!(picked[0].id, "a");
    assert_eq!(picked[0].quantity, 1);
    assert_eq!(picked[1].id, "b");
    assert_eq!(picked[1].quantity, 2);
    assert_eq!(picked[2].id, "a");
    assert_eq!(picked[2].quantity, 4);
    let few = ccmk4::recipes::inventory::pick_inventory(&items, &vec![(5, 3), (1, 7)]);
    assert_eq!(few.len(), 1);
    assert_eq!((few[0].id.as_str(), few[0].quantity), ("b", 7));
}
