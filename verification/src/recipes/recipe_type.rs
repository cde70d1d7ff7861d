//! The kinds of recipe that the game's data files name in their `type` field.
use vstd::prelude::*;

use crate::recipes::text::{eq_literal, lowercase_of, to_lowercase};

verus! {

#[derive(Debug, Clone, Copy, PartialEq, Eq, Structural)]
pub enum RecipeType {
    CraftingSpecialMapextending,
    SmithingTransform,
    CraftingDecoratedPot,
    CraftingShapeless,
    CraftingShaped,
    CraftingSpecialBannerduplicate,
    CraftingSpecialRepairitem,
    CraftingTransmute,
    Blasting,
    CampfireCooking,
    CraftingSpecialShielddecoration,
    Stonecutting,
    CraftingImbue,
    SmithingTrim,
    CraftingSpecialFireworkRocket,
    Smoking,
    CraftingSpecialFireworkStar,
    Smelting,
    CraftingSpecialBookcloning,
    CraftingSpecialFireworkStarFade,
    CraftingDye,
}

/// The recipe type that a lowercase type name denotes. Each name is accepted
/// with or without the `minecraft:` namespace, except `crafting_dye`, which is
/// only accepted with it.
pub open spec fn recipe_type_named(name: Seq<char>) -> Option<RecipeType> {
    if name == "minecraft:crafting_special_mapextending"@ || name == "crafting_special_mapextending"@ {
        Some(RecipeType::CraftingSpecialMapextending)
    } else if name == "minecraft:smithing_transform"@ || name == "smithing_transform"@ {
        Some(RecipeType::SmithingTransform)
    } else if name == "minecraft:crafting_decorated_pot"@ || name == "crafting_decorated_pot"@ {
        Some(RecipeType::CraftingDecoratedPot)
    } else if name == "minecraft:crafting_shapeless"@ || name == "crafting_shapeless"@ {
        Some(RecipeType::CraftingShapeless)
    } else if name == "minecraft:crafting_shaped"@ || name == "crafting_shaped"@ {
        Some(RecipeType::CraftingShaped)
    } else if name == "minecraft:crafting_special_bannerduplicate"@ || name == "crafting_special_bannerduplicate"@ {
        Some(RecipeType::CraftingSpecialBannerduplicate)
    } else if name == "minecraft:crafting_special_repairitem"@ || name == "crafting_special_repairitem"@ {
        Some(RecipeType::CraftingSpecialRepairitem)
    } else if name == "minecraft:crafting_transmute"@ || name == "crafting_transmute"@ {
        Some(RecipeType::CraftingTransmute)
    } else if name == "minecraft:blasting"@ || name == "blasting"@ {
        Some(RecipeType::Blasting)
    } else if name == "minecraft:campfire_cooking"@ || name == "campfire_cooking"@ {
        Some(RecipeType::CampfireCooking)
    } else if name == "minecraft:crafting_special_shielddecoration"@ || name == "crafting_special_shielddecoration"@ {
        Some(RecipeType::CraftingSpecialShielddecoration)
    } else if name == "minecraft:stonecutting"@ || name == "stonecutting"@ {
        Some(RecipeType::Stonecutting)
    } else if name == "minecraft:crafting_imbue"@ || name == "crafting_imbue"@ {
        Some(RecipeType::CraftingImbue)
    } else if name == "minecraft:smithing_trim"@ || name == "smithing_trim"@ {
        Some(RecipeType::SmithingTrim)
    } else if name == "minecraft:crafting_special_firework_rocket"@ || name == "crafting_special_firework_rocket"@ {
        Some(RecipeType::CraftingSpecialFireworkRocket)
    } else if name == "minecraft:smoking"@ || name == "smoking"@ {
        Some(RecipeType::Smoking)
    } else if name == "minecraft:crafting_special_firework_star"@ || name == "crafting_special_firework_star"@ {
        Some(RecipeType::CraftingSpecialFireworkStar)
    } else if name == "minecraft:smelting"@ || name == "smelting"@ {
        Some(RecipeType::Smelting)
    } else if name == "minecraft:crafting_special_bookcloning"@ || name == "crafting_special_bookcloning"@ {
        Some(RecipeType::CraftingSpecialBookcloning)
    } else if name == "minecraft:crafting_special_firework_star_fade"@ || name == "crafting_special_firework_star_fade"@ {
        Some(RecipeType::CraftingSpecialFireworkStarFade)
    } else if name == "minecraft:crafting_dye"@ {
        Some(RecipeType::CraftingDye)
    } else {
        None
    }
}

/// The name of a recipe type in the data files, without its namespace: the
/// variant's name in snake case.
pub open spec fn snake_name(t: RecipeType) -> Seq<char> {
    match t {
        RecipeType::CraftingSpecialMapextending => "crafting_special_mapextending"@,
        RecipeType::SmithingTransform => "smithing_transform"@,
        RecipeType::CraftingDecoratedPot => "crafting_decorated_pot"@,
        RecipeType::CraftingShapeless => "crafting_shapeless"@,
        RecipeType::CraftingShaped => "crafting_shaped"@,
        RecipeType::CraftingSpecialBannerduplicate => "crafting_special_bannerduplicate"@,
        RecipeType::CraftingSpecialRepairitem => "crafting_special_repairitem"@,
        RecipeType::CraftingTransmute => "crafting_transmute"@,
        RecipeType::Blasting => "blasting"@,
        RecipeType::CampfireCooking => "campfire_cooking"@,
        RecipeType::CraftingSpecialShielddecoration => "crafting_special_shielddecoration"@,
        RecipeType::Stonecutting => "stonecutting"@,
        RecipeType::CraftingImbue => "crafting_imbue"@,
        RecipeType::SmithingTrim => "smithing_trim"@,
        RecipeType::CraftingSpecialFireworkRocket => "crafting_special_firework_rocket"@,
        RecipeType::Smoking => "smoking"@,
        RecipeType::CraftingSpecialFireworkStar => "crafting_special_firework_star"@,
        RecipeType::Smelting => "smelting"@,
        RecipeType::CraftingSpecialBookcloning => "crafting_special_bookcloning"@,
        RecipeType::CraftingSpecialFireworkStarFade => "crafting_special_firework_star_fade"@,
        RecipeType::CraftingDye => "crafting_dye"@,
    }
}

/// A type name with the `minecraft:` namespace taken off, where it has one.
pub open spec fn without_namespace(name: Seq<char>) -> Seq<char> {
    if name.len() >= 10 && name.take(10) == "minecraft:"@ {
        name.skip(10)
    } else {
        name
    }
}

/// A name the table accepts is the name of the type it denotes: with the
/// `minecraft:` namespace, or without it for every type but `crafting_dye`.
pub proof fn lemma_name_is_snake_name(name: Seq<char>)
    ensures
        recipe_type_named(name) matches Some(t) ==> without_namespace(name) == snake_name(t),
        recipe_type_named(name) matches Some(t) ==> name == "minecraft:"@ + snake_name(t) || (t
            != RecipeType::CraftingDye && name == snake_name(t)),
{
    reveal_strlit("minecraft:");
    match recipe_type_named(name) {
        Some(RecipeType::CraftingSpecialMapextending) => {
            reveal_strlit("crafting_special_mapextending");
            reveal_strlit("minecraft:crafting_special_mapextending");
            if name == "minecraft:crafting_special_mapextending"@ {
                assert(name.take(10) =~= "minecraft:"@);
                assert(name =~= "minecraft:"@ + name.skip(10));
                assert(name.skip(10) =~= "crafting_special_mapextending"@);
            } else if name.len() >= 10 {
                assert(name.take(10)[0] == name[0]);
                assert(name.take(10) != "minecraft:"@);
            }
        },
        Some(RecipeType::SmithingTransform) => {
            reveal_strlit("smithing_transform");
            reveal_strlit("minecraft:smithing_transform");
            if name == "minecraft:smithing_transform"@ {
                assert(name.take(10) =~= "minecraft:"@);
                assert(name =~= "minecraft:"@ + name.skip(10));
                assert(name.skip(10) =~= "smithing_transform"@);
            } else if name.len() >= 10 {
                assert(name.take(10)[0] == name[0]);
                assert(name.take(10) != "minecraft:"@);
            }
        },
        Some(RecipeType::CraftingDecoratedPot) => {
            reveal_strlit("crafting_decorated_pot");
            reveal_strlit("minecraft:crafting_decorated_pot");
            if name == "minecraft:crafting_decorated_pot"@ {
                assert(name.take(10) =~= "minecraft:"@);
                assert(name =~= "minecraft:"@ + name.skip(10));
                assert(name.skip(10) =~= "crafting_decorated_pot"@);
            } else if name.len() >= 10 {
                assert(name.take(10)[0] == name[0]);
                assert(name.take(10) != "minecraft:"@);
            }
        },
        Some(RecipeType::CraftingShapeless) => {
            reveal_strlit("crafting_shapeless");
            reveal_strlit("minecraft:crafting_shapeless");
            if name == "minecraft:crafting_shapeless"@ {
                assert(name.take(10) =~= "minecraft:"@);
                assert(name =~= "minecraft:"@ + name.skip(10));
                assert(name.skip(10) =~= "crafting_shapeless"@);
            } else if name.len() >= 10 {
                assert(name.take(10)[0] == name[0]);
                assert(name.take(10) != "minecraft:"@);
            }
        },
        Some(RecipeType::CraftingShaped) => {
            reveal_strlit("crafting_shaped");
            reveal_strlit("minecraft:crafting_shaped");
            if name == "minecraft:crafting_shaped"@ {
                assert(name.take(10) =~= "minecraft:"@);
                assert(name =~= "minecraft:"@ + name.skip(10));
                assert(name.skip(10) =~= "crafting_shaped"@);
            } else if name.len() >= 10 {
                assert(name.take(10)[0] == name[0]);
                assert(name.take(10) != "minecraft:"@);
            }
        },
        Some(RecipeType::CraftingSpecialBannerduplicate) => {
            reveal_strlit("crafting_special_bannerduplicate");
            reveal_strlit("minecraft:crafting_special_bannerduplicate");
            if name == "minecraft:crafting_special_bannerduplicate"@ {
                assert(name.take(10) =~= "minecraft:"@);
                assert(name =~= "minecraft:"@ + name.skip(10));
                assert(name.skip(10) =~= "crafting_special_bannerduplicate"@);
            } else if name.len() >= 10 {
                assert(name.take(10)[0] == name[0]);
                assert(name.take(10) != "minecraft:"@);
            }
        },
        Some(RecipeType::CraftingSpecialRepairitem) => {
            reveal_strlit("crafting_special_repairitem");
            reveal_strlit("minecraft:crafting_special_repairitem");
            if name == "minecraft:crafting_special_repairitem"@ {
                assert(name.take(10) =~= "minecraft:"@);
                assert(name =~= "minecraft:"@ + name.skip(10));
                assert(name.skip(10) =~= "crafting_special_repairitem"@);
            } else if name.len() >= 10 {
                assert(name.take(10)[0] == name[0]);
                assert(name.take(10) != "minecraft:"@);
            }
        },
        Some(RecipeType::CraftingTransmute) => {
            reveal_strlit("crafting_transmute");
            reveal_strlit("minecraft:crafting_transmute");
            if name == "minecraft:crafting_transmute"@ {
                assert(name.take(10) =~= "minecraft:"@);
                assert(name =~= "minecraft:"@ + name.skip(10));
                assert(name.skip(10) =~= "crafting_transmute"@);
            } else if name.len() >= 10 {
                assert(name.take(10)[0] == name[0]);
                assert(name.take(10) != "minecraft:"@);
            }
        },
        Some(RecipeType::Blasting) => {
            reveal_strlit("blasting");
            reveal_strlit("minecraft:blasting");
            if name == "minecraft:blasting"@ {
                assert(name.take(10) =~= "minecraft:"@);
                assert(name =~= "minecraft:"@ + name.skip(10));
                assert(name.skip(10) =~= "blasting"@);
            } else if name.len() >= 10 {
                assert(name.take(10)[0] == name[0]);
                assert(name.take(10) != "minecraft:"@);
            }
        },
        Some(RecipeType::CampfireCooking) => {
            reveal_strlit("campfire_cooking");
            reveal_strlit("minecraft:campfire_cooking");
            if name == "minecraft:campfire_cooking"@ {
                assert(name.take(10) =~= "minecraft:"@);
                assert(name =~= "minecraft:"@ + name.skip(10));
                assert(name.skip(10) =~= "campfire_cooking"@);
            } else if name.len() >= 10 {
                assert(name.take(10)[0] == name[0]);
                assert(name.take(10) != "minecraft:"@);
            }
        },
        Some(RecipeType::CraftingSpecialShielddecoration) => {
            reveal_strlit("crafting_special_shielddecoration");
            reveal_strlit("minecraft:crafting_special_shielddecoration");
            if name == "minecraft:crafting_special_shielddecoration"@ {
                assert(name.take(10) =~= "minecraft:"@);
                assert(name =~= "minecraft:"@ + name.skip(10));
                assert(name.skip(10) =~= "crafting_special_shielddecoration"@);
            } else if name.len() >= 10 {
                assert(name.take(10)[0] == name[0]);
                assert(name.take(10) != "minecraft:"@);
            }
        },
        Some(RecipeType::Stonecutting) => {
            reveal_strlit("stonecutting");
            reveal_strlit("minecraft:stonecutting");
            if name == "minecraft:stonecutting"@ {
                assert(name.take(10) =~= "minecraft:"@);
                assert(name =~= "minecraft:"@ + name.skip(10));
                assert(name.skip(10) =~= "stonecutting"@);
            } else if name.len() >= 10 {
                assert(name.take(10)[0] == name[0]);
                assert(name.take(10) != "minecraft:"@);
            }
        },
        Some(RecipeType::CraftingImbue) => {
            reveal_strlit("crafting_imbue");
            reveal_strlit("minecraft:crafting_imbue");
            if name == "minecraft:crafting_imbue"@ {
                assert(name.take(10) =~= "minecraft:"@);
                assert(name =~= "minecraft:"@ + name.skip(10));
                assert(name.skip(10) =~= "crafting_imbue"@);
            } else if name.len() >= 10 {
                assert(name.take(10)[0] == name[0]);
                assert(name.take(10) != "minecraft:"@);
            }
        },
        Some(RecipeType::SmithingTrim) => {
            reveal_strlit("smithing_trim");
            reveal_strlit("minecraft:smithing_trim");
            if name == "minecraft:smithing_trim"@ {
                assert(name.take(10) =~= "minecraft:"@);
                assert(name =~= "minecraft:"@ + name.skip(10));
                assert(name.skip(10) =~= "smithing_trim"@);
            } else if name.len() >= 10 {
                assert(name.take(10)[0] == name[0]);
                assert(name.take(10) != "minecraft:"@);
            }
        },
        Some(RecipeType::CraftingSpecialFireworkRocket) => {
            reveal_strlit("crafting_special_firework_rocket");
            reveal_strlit("minecraft:crafting_special_firework_rocket");
            if name == "minecraft:crafting_special_firework_rocket"@ {
                assert(name.take(10) =~= "minecraft:"@);
                assert(name =~= "minecraft:"@ + name.skip(10));
                assert(name.skip(10) =~= "crafting_special_firework_rocket"@);
            } else if name.len() >= 10 {
                assert(name.take(10)[0] == name[0]);
                assert(name.take(10) != "minecraft:"@);
            }
        },
        Some(RecipeType::Smoking) => {
            reveal_strlit("smoking");
            reveal_strlit("minecraft:smoking");
            if name == "minecraft:smoking"@ {
                assert(name.take(10) =~= "minecraft:"@);
                assert(name =~= "minecraft:"@ + name.skip(10));
                assert(name.skip(10) =~= "smoking"@);
            } else if name.len() >= 10 {
                assert(name.take(10)[0] == name[0]);
                assert(name.take(10) != "minecraft:"@);
            }
        },
        Some(RecipeType::CraftingSpecialFireworkStar) => {
            reveal_strlit("crafting_special_firework_star");
            reveal_strlit("minecraft:crafting_special_firework_star");
            if name == "minecraft:crafting_special_firework_star"@ {
                assert(name.take(10) =~= "minecraft:"@);
                assert(name =~= "minecraft:"@ + name.skip(10));
                assert(name.skip(10) =~= "crafting_special_firework_star"@);
            } else if name.len() >= 10 {
                assert(name.take(10)[0] == name[0]);
                assert(name.take(10) != "minecraft:"@);
            }
        },
        Some(RecipeType::Smelting) => {
            reveal_strlit("smelting");
            reveal_strlit("minecraft:smelting");
            if name == "minecraft:smelting"@ {
                assert(name.take(10) =~= "minecraft:"@);
                assert(name =~= "minecraft:"@ + name.skip(10));
                assert(name.skip(10) =~= "smelting"@);
            } else if name.len() >= 10 {
                assert(name.take(10)[0] == name[0]);
                assert(name.take(10) != "minecraft:"@);
            }
        },
        Some(RecipeType::CraftingSpecialBookcloning) => {
            reveal_strlit("crafting_special_bookcloning");
            reveal_strlit("minecraft:crafting_special_bookcloning");
            if name == "minecraft:crafting_special_bookcloning"@ {
                assert(name.take(10) =~= "minecraft:"@);
                assert(name =~= "minecraft:"@ + name.skip(10));
                assert(name.skip(10) =~= "crafting_special_bookcloning"@);
            } else if name.len() >= 10 {
                assert(name.take(10)[0] == name[0]);
                assert(name.take(10) != "minecraft:"@);
            }
        },
        Some(RecipeType::CraftingSpecialFireworkStarFade) => {
            reveal_strlit("crafting_special_firework_star_fade");
            reveal_strlit("minecraft:crafting_special_firework_star_fade");
            if name == "minecraft:crafting_special_firework_star_fade"@ {
                assert(name.take(10) =~= "minecraft:"@);
                assert(name =~= "minecraft:"@ + name.skip(10));
                assert(name.skip(10) =~= "crafting_special_firework_star_fade"@);
            } else if name.len() >= 10 {
                assert(name.take(10)[0] == name[0]);
                assert(name.take(10) != "minecraft:"@);
            }
        },
        Some(RecipeType::CraftingDye) => {
            reveal_strlit("crafting_dye");
            reveal_strlit("minecraft:crafting_dye");
            if name == "minecraft:crafting_dye"@ {
                assert(name.take(10) =~= "minecraft:"@);
                assert(name =~= "minecraft:"@ + name.skip(10));
                assert(name.skip(10) =~= "crafting_dye"@);
            } else if name.len() >= 10 {
                assert(name.take(10)[0] == name[0]);
                assert(name.take(10) != "minecraft:"@);
            }
        },
        None => {},
    }
}

/// Different type names denote different recipe types: two names that the
/// table accepts denote the same type only when they are the same name, with
/// or without the namespace.
pub proof fn lemma_type_names_distinct(a: Seq<char>, b: Seq<char>)
    requires
        recipe_type_named(a) is Some,
        recipe_type_named(a) == recipe_type_named(b),
    ensures
        without_namespace(a) == without_namespace(b),
{
    lemma_name_is_snake_name(a);
    lemma_name_is_snake_name(b);
}

/// Every recipe type is denoted by its name with the namespace, and by its
/// bare name except `crafting_dye`.
pub proof fn lemma_every_type_named(t: RecipeType)
    ensures
        recipe_type_named("minecraft:"@ + snake_name(t)) == Some(t),
        t != RecipeType::CraftingDye ==> recipe_type_named(snake_name(t)) == Some(t),
{
    // The names' characters, with the lengths and the positions that tell
    // names of equal length apart.
    reveal_strlit("blasting");
    reveal_strlit("campfire_cooking");
    reveal_strlit("crafting_decorated_pot");
    reveal_strlit("crafting_imbue");
    reveal_strlit("crafting_shaped");
    reveal_strlit("crafting_shapeless");
    reveal_strlit("crafting_special_bannerduplicate");
    reveal_strlit("crafting_special_bookcloning");
    reveal_strlit("crafting_special_firework_rocket");
    reveal_strlit("crafting_special_firework_star");
    reveal_strlit("crafting_special_firework_star_fade");
    reveal_strlit("crafting_special_mapextending");
    reveal_strlit("crafting_special_repairitem");
    reveal_strlit("crafting_special_shielddecoration");
    reveal_strlit("crafting_transmute");
    reveal_strlit("minecraft:blasting");
    reveal_strlit("minecraft:campfire_cooking");
    reveal_strlit("minecraft:crafting_decorated_pot");
    reveal_strlit("minecraft:crafting_dye");
    reveal_strlit("minecraft:crafting_imbue");
    reveal_strlit("minecraft:crafting_shaped");
    reveal_strlit("minecraft:crafting_shapeless");
    reveal_strlit("minecraft:crafting_special_bannerduplicate");
    reveal_strlit("minecraft:crafting_special_bookcloning");
    reveal_strlit("minecraft:crafting_special_firework_rocket");
    reveal_strlit("minecraft:crafting_special_firework_star");
    reveal_strlit("minecraft:crafting_special_firework_star_fade");
    reveal_strlit("minecraft:crafting_special_mapextending");
    reveal_strlit("minecraft:crafting_special_repairitem");
    reveal_strlit("minecraft:crafting_special_shielddecoration");
    reveal_strlit("minecraft:crafting_transmute");
    reveal_strlit("minecraft:smelting");
    reveal_strlit("minecraft:smithing_transform");
    reveal_strlit("minecraft:smithing_trim");
    reveal_strlit("minecraft:smoking");
    reveal_strlit("minecraft:stonecutting");
    reveal_strlit("smelting");
    reveal_strlit("smithing_transform");
    reveal_strlit("smithing_trim");
    reveal_strlit("smoking");
    reveal_strlit("stonecutting");
    reveal_strlit("minecraft:");
    assert("smoking"@.len() == 7);
    assert("blasting"@.len() == 8);
    assert("blasting"@[0] == 'b');
    assert("smelting"@.len() == 8);
    assert("smelting"@[0] == 's');
    assert("stonecutting"@.len() == 12);
    assert("smithing_trim"@.len() == 13);
    assert("crafting_imbue"@.len() == 14);
    assert("crafting_shaped"@.len() == 15);
    assert("campfire_cooking"@.len() == 16);
    assert("minecraft:smoking"@.len() == 17);
    assert("crafting_shapeless"@.len() == 18);
    assert("crafting_shapeless"@[0] == 'c');
    assert("crafting_shapeless"@[9] == 's');
    assert("crafting_shapeless"@[10] == 'h');
    assert("crafting_transmute"@.len() == 18);
    assert("crafting_transmute"@[0] == 'c');
    assert("crafting_transmute"@[9] == 't');
    assert("crafting_transmute"@[10] == 'r');
    assert("minecraft:blasting"@.len() == 18);
    assert("minecraft:blasting"@[0] == 'm');
    assert("minecraft:blasting"@[9] == ':');
    assert("minecraft:blasting"@[10] == 'b');
    assert("minecraft:smelting"@.len() == 18);
    assert("minecraft:smelting"@[0] == 'm');
    assert("minecraft:smelting"@[9] == ':');
    assert("minecraft:smelting"@[10] == 's');
    assert("smithing_transform"@.len() == 18);
    assert("smithing_transform"@[0] == 's');
    assert("smithing_transform"@[9] == 't');
    assert("smithing_transform"@[10] == 'r');
    assert("crafting_decorated_pot"@.len() == 22);
    assert("crafting_decorated_pot"@[0] == 'c');
    assert("crafting_decorated_pot"@[10] == 'e');
    assert("minecraft:crafting_dye"@.len() == 22);
    assert("minecraft:crafting_dye"@[0] == 'm');
    assert("minecraft:crafting_dye"@[10] == 'c');
    assert("minecraft:stonecutting"@.len() == 22);
    assert("minecraft:stonecutting"@[0] == 'm');
    assert("minecraft:stonecutting"@[10] == 's');
    assert("minecraft:smithing_trim"@.len() == 23);
    assert("minecraft:crafting_imbue"@.len() == 24);
    assert("minecraft:crafting_shaped"@.len() == 25);
    assert("minecraft:campfire_cooking"@.len() == 26);
    assert("crafting_special_repairitem"@.len() == 27);
    assert("crafting_special_bookcloning"@.len() == 28);
    assert("crafting_special_bookcloning"@[0] == 'c');
    assert("crafting_special_bookcloning"@[10] == 'p');
    assert("crafting_special_bookcloning"@[19] == 'o');
    assert("minecraft:crafting_shapeless"@.len() == 28);
    assert("minecraft:crafting_shapeless"@[0] == 'm');
    assert("minecraft:crafting_shapeless"@[10] == 'c');
    assert("minecraft:crafting_shapeless"@[19] == 's');
    assert("minecraft:crafting_transmute"@.len() == 28);
    assert("minecraft:crafting_transmute"@[0] == 'm');
    assert("minecraft:crafting_transmute"@[10] == 'c');
    assert("minecraft:crafting_transmute"@[19] == 't');
    assert("minecraft:smithing_transform"@.len() == 28);
    assert("minecraft:smithing_transform"@[0] == 'm');
    assert("minecraft:smithing_transform"@[10] == 's');
    assert("minecraft:smithing_transform"@[19] == 't');
    assert("crafting_special_mapextending"@.len() == 29);
    assert("crafting_special_firework_star"@.len() == 30);
    assert("crafting_special_bannerduplicate"@.len() == 32);
    assert("crafting_special_bannerduplicate"@[17] == 'b');
    assert("crafting_special_firework_rocket"@.len() == 32);
    assert("crafting_special_firework_rocket"@[17] == 'f');
    assert("minecraft:crafting_decorated_pot"@.len() == 32);
    assert("minecraft:crafting_decorated_pot"@[17] == 'g');
    assert("crafting_special_shielddecoration"@.len() == 33);
    assert("crafting_special_firework_star_fade"@.len() == 35);
    assert("minecraft:crafting_special_repairitem"@.len() == 37);
    assert("minecraft:crafting_special_bookcloning"@.len() == 38);
    assert("minecraft:crafting_special_mapextending"@.len() == 39);
    assert("minecraft:crafting_special_firework_star"@.len() == 40);
    assert("minecraft:crafting_special_bannerduplicate"@.len() == 42);
    assert("minecraft:crafting_special_bannerduplicate"@[27] == 'b');
    assert("minecraft:crafting_special_firework_rocket"@.len() == 42);
    assert("minecraft:crafting_special_firework_rocket"@[27] == 'f');
    assert("minecraft:crafting_special_shielddecoration"@.len() == 43);
    assert("minecraft:crafting_special_firework_star_fade"@.len() == 45);
    match t {
        RecipeType::CraftingSpecialMapextending => {
            reveal_strlit("crafting_special_mapextending");
            reveal_strlit("minecraft:crafting_special_mapextending");
            assert("minecraft:"@ + snake_name(t) =~= "minecraft:crafting_special_mapextending"@);
        },
        RecipeType::SmithingTransform => {
            reveal_strlit("smithing_transform");
            reveal_strlit("minecraft:smithing_transform");
            assert("minecraft:"@ + snake_name(t) =~= "minecraft:smithing_transform"@);
        },
        RecipeType::CraftingDecoratedPot => {
            reveal_strlit("crafting_decorated_pot");
            reveal_strlit("minecraft:crafting_decorated_pot");
            assert("minecraft:"@ + snake_name(t) =~= "minecraft:crafting_decorated_pot"@);
        },
        RecipeType::CraftingShapeless => {
            reveal_strlit("crafting_shapeless");
            reveal_strlit("minecraft:crafting_shapeless");
            assert("minecraft:"@ + snake_name(t) =~= "minecraft:crafting_shapeless"@);
        },
        RecipeType::CraftingShaped => {
            reveal_strlit("crafting_shaped");
            reveal_strlit("minecraft:crafting_shaped");
            assert("minecraft:"@ + snake_name(t) =~= "minecraft:crafting_shaped"@);
        },
        RecipeType::CraftingSpecialBannerduplicate => {
            reveal_strlit("crafting_special_bannerduplicate");
            reveal_strlit("minecraft:crafting_special_bannerduplicate");
            assert("minecraft:"@ + snake_name(t) =~= "minecraft:crafting_special_bannerduplicate"@);
        },
        RecipeType::CraftingSpecialRepairitem => {
            reveal_strlit("crafting_special_repairitem");
            reveal_strlit("minecraft:crafting_special_repairitem");
            assert("minecraft:"@ + snake_name(t) =~= "minecraft:crafting_special_repairitem"@);
        },
        RecipeType::CraftingTransmute => {
            reveal_strlit("crafting_transmute");
            reveal_strlit("minecraft:crafting_transmute");
            assert("minecraft:"@ + snake_name(t) =~= "minecraft:crafting_transmute"@);
        },
        RecipeType::Blasting => {
            reveal_strlit("blasting");
            reveal_strlit("minecraft:blasting");
            assert("minecraft:"@ + snake_name(t) =~= "minecraft:blasting"@);
        },
        RecipeType::CampfireCooking => {
            reveal_strlit("campfire_cooking");
            reveal_strlit("minecraft:campfire_cooking");
            assert("minecraft:"@ + snake_name(t) =~= "minecraft:campfire_cooking"@);
        },
        RecipeType::CraftingSpecialShielddecoration => {
            reveal_strlit("crafting_special_shielddecoration");
            reveal_strlit("minecraft:crafting_special_shielddecoration");
            assert("minecraft:"@ + snake_name(t) =~= "minecraft:crafting_special_shielddecoration"@);
        },
        RecipeType::Stonecutting => {
            reveal_strlit("stonecutting");
            reveal_strlit("minecraft:stonecutting");
            assert("minecraft:"@ + snake_name(t) =~= "minecraft:stonecutting"@);
        },
        RecipeType::CraftingImbue => {
            reveal_strlit("crafting_imbue");
            reveal_strlit("minecraft:crafting_imbue");
            assert("minecraft:"@ + snake_name(t) =~= "minecraft:crafting_imbue"@);
        },
        RecipeType::SmithingTrim => {
            reveal_strlit("smithing_trim");
            reveal_strlit("minecraft:smithing_trim");
            assert("minecraft:"@ + snake_name(t) =~= "minecraft:smithing_trim"@);
        },
        RecipeType::CraftingSpecialFireworkRocket => {
            reveal_strlit("crafting_special_firework_rocket");
            reveal_strlit("minecraft:crafting_special_firework_rocket");
            assert("minecraft:"@ + snake_name(t) =~= "minecraft:crafting_special_firework_rocket"@);
        },
        RecipeType::Smoking => {
            reveal_strlit("smoking");
            reveal_strlit("minecraft:smoking");
            assert("minecraft:"@ + snake_name(t) =~= "minecraft:smoking"@);
        },
        RecipeType::CraftingSpecialFireworkStar => {
            reveal_strlit("crafting_special_firework_star");
            reveal_strlit("minecraft:crafting_special_firework_star");
            assert("minecraft:"@ + snake_name(t) =~= "minecraft:crafting_special_firework_star"@);
        },
        RecipeType::Smelting => {
            reveal_strlit("smelting");
            reveal_strlit("minecraft:smelting");
            assert("minecraft:"@ + snake_name(t) =~= "minecraft:smelting"@);
        },
        RecipeType::CraftingSpecialBookcloning => {
            reveal_strlit("crafting_special_bookcloning");
            reveal_strlit("minecraft:crafting_special_bookcloning");
            assert("minecraft:"@ + snake_name(t) =~= "minecraft:crafting_special_bookcloning"@);
        },
        RecipeType::CraftingSpecialFireworkStarFade => {
            reveal_strlit("crafting_special_firework_star_fade");
            reveal_strlit("minecraft:crafting_special_firework_star_fade");
            assert("minecraft:"@ + snake_name(t) =~= "minecraft:crafting_special_firework_star_fade"@);
        },
        RecipeType::CraftingDye => {
            reveal_strlit("crafting_dye");
            reveal_strlit("minecraft:crafting_dye");
            assert("minecraft:"@ + snake_name(t) =~= "minecraft:crafting_dye"@);
        },
    }
}


/// Every type name that the table accepts without the `minecraft:` namespace
/// is accepted with it too, and denotes the same type.
pub proof fn lemma_namespace_optional(name: Seq<char>)
    requires
        recipe_type_named(name) is Some,
        !(name.len() >= 10 && name.take(10) == "minecraft:"@),
    ensures
        recipe_type_named("minecraft:"@ + name) == recipe_type_named(name),
{
    // The names' characters, with the lengths and the positions that tell
    // names of equal length apart.
    reveal_strlit("blasting");
    reveal_strlit("campfire_cooking");
    reveal_strlit("crafting_decorated_pot");
    reveal_strlit("crafting_imbue");
    reveal_strlit("crafting_shaped");
    reveal_strlit("crafting_shapeless");
    reveal_strlit("crafting_special_bannerduplicate");
    reveal_strlit("crafting_special_bookcloning");
    reveal_strlit("crafting_special_firework_rocket");
    reveal_strlit("crafting_special_firework_star");
    reveal_strlit("crafting_special_firework_star_fade");
    reveal_strlit("crafting_special_mapextending");
    reveal_strlit("crafting_special_repairitem");
    reveal_strlit("crafting_special_shielddecoration");
    reveal_strlit("crafting_transmute");
    reveal_strlit("minecraft:blasting");
    reveal_strlit("minecraft:campfire_cooking");
    reveal_strlit("minecraft:crafting_decorated_pot");
    reveal_strlit("minecraft:crafting_dye");
    reveal_strlit("minecraft:crafting_imbue");
    reveal_strlit("minecraft:crafting_shaped");
    reveal_strlit("minecraft:crafting_shapeless");
    reveal_strlit("minecraft:crafting_special_bannerduplicate");
    reveal_strlit("minecraft:crafting_special_bookcloning");
    reveal_strlit("minecraft:crafting_special_firework_rocket");
    reveal_strlit("minecraft:crafting_special_firework_star");
    reveal_strlit("minecraft:crafting_special_firework_star_fade");
    reveal_strlit("minecraft:crafting_special_mapextending");
    reveal_strlit("minecraft:crafting_special_repairitem");
    reveal_strlit("minecraft:crafting_special_shielddecoration");
    reveal_strlit("minecraft:crafting_transmute");
    reveal_strlit("minecraft:smelting");
    reveal_strlit("minecraft:smithing_transform");
    reveal_strlit("minecraft:smithing_trim");
    reveal_strlit("minecraft:smoking");
    reveal_strlit("minecraft:stonecutting");
    reveal_strlit("smelting");
    reveal_strlit("smithing_transform");
    reveal_strlit("smithing_trim");
    reveal_strlit("smoking");
    reveal_strlit("stonecutting");
    reveal_strlit("minecraft:");
    assert("smoking"@.len() == 7);
    assert("blasting"@.len() == 8);
    assert("blasting"@[0] == 'b');
    assert("smelting"@.len() == 8);
    assert("smelting"@[0] == 's');
    assert("stonecutting"@.len() == 12);
    assert("smithing_trim"@.len() == 13);
    assert("crafting_imbue"@.len() == 14);
    assert("crafting_shaped"@.len() == 15);
    assert("campfire_cooking"@.len() == 16);
    assert("minecraft:smoking"@.len() == 17);
    assert("crafting_shapeless"@.len() == 18);
    assert("crafting_shapeless"@[0] == 'c');
    assert("crafting_shapeless"@[9] == 's');
    assert("crafting_shapeless"@[10] == 'h');
    assert("crafting_transmute"@.len() == 18);
    assert("crafting_transmute"@[0] == 'c');
    assert("crafting_transmute"@[9] == 't');
    assert("crafting_transmute"@[10] == 'r');
    assert("minecraft:blasting"@.len() == 18);
    assert("minecraft:blasting"@[0] == 'm');
    assert("minecraft:blasting"@[9] == ':');
    assert("minecraft:blasting"@[10] == 'b');
    assert("minecraft:smelting"@.len() == 18);
    assert("minecraft:smelting"@[0] == 'm');
    assert("minecraft:smelting"@[9] == ':');
    assert("minecraft:smelting"@[10] == 's');
    assert("smithing_transform"@.len() == 18);
    assert("smithing_transform"@[0] == 's');
    assert("smithing_transform"@[9] == 't');
    assert("smithing_transform"@[10] == 'r');
    assert("crafting_decorated_pot"@.len() == 22);
    assert("crafting_decorated_pot"@[0] == 'c');
    assert("crafting_decorated_pot"@[10] == 'e');
    assert("minecraft:crafting_dye"@.len() == 22);
    assert("minecraft:crafting_dye"@[0] == 'm');
    assert("minecraft:crafting_dye"@[10] == 'c');
    assert("minecraft:stonecutting"@.len() == 22);
    assert("minecraft:stonecutting"@[0] == 'm');
    assert("minecraft:stonecutting"@[10] == 's');
    assert("minecraft:smithing_trim"@.len() == 23);
    assert("minecraft:crafting_imbue"@.len() == 24);
    assert("minecraft:crafting_shaped"@.len() == 25);
    assert("minecraft:campfire_cooking"@.len() == 26);
    assert("crafting_special_repairitem"@.len() == 27);
    assert("crafting_special_bookcloning"@.len() == 28);
    assert("crafting_special_bookcloning"@[0] == 'c');
    assert("crafting_special_bookcloning"@[10] == 'p');
    assert("crafting_special_bookcloning"@[19] == 'o');
    assert("minecraft:crafting_shapeless"@.len() == 28);
    assert("minecraft:crafting_shapeless"@[0] == 'm');
    assert("minecraft:crafting_shapeless"@[10] == 'c');
    assert("minecraft:crafting_shapeless"@[19] == 's');
    assert("minecraft:crafting_transmute"@.len() == 28);
    assert("minecraft:crafting_transmute"@[0] == 'm');
    assert("minecraft:crafting_transmute"@[10] == 'c');
    assert("minecraft:crafting_transmute"@[19] == 't');
    assert("minecraft:smithing_transform"@.len() == 28);
    assert("minecraft:smithing_transform"@[0] == 'm');
    assert("minecraft:smithing_transform"@[10] == 's');
    assert("minecraft:smithing_transform"@[19] == 't');
    assert("crafting_special_mapextending"@.len() == 29);
    assert("crafting_special_firework_star"@.len() == 30);
    assert("crafting_special_bannerduplicate"@.len() == 32);
    assert("crafting_special_bannerduplicate"@[17] == 'b');
    assert("crafting_special_firework_rocket"@.len() == 32);
    assert("crafting_special_firework_rocket"@[17] == 'f');
    assert("minecraft:crafting_decorated_pot"@.len() == 32);
    assert("minecraft:crafting_decorated_pot"@[17] == 'g');
    assert("crafting_special_shielddecoration"@.len() == 33);
    assert("crafting_special_firework_star_fade"@.len() == 35);
    assert("minecraft:crafting_special_repairitem"@.len() == 37);
    assert("minecraft:crafting_special_bookcloning"@.len() == 38);
    assert("minecraft:crafting_special_mapextending"@.len() == 39);
    assert("minecraft:crafting_special_firework_star"@.len() == 40);
    assert("minecraft:crafting_special_bannerduplicate"@.len() == 42);
    assert("minecraft:crafting_special_bannerduplicate"@[27] == 'b');
    assert("minecraft:crafting_special_firework_rocket"@.len() == 42);
    assert("minecraft:crafting_special_firework_rocket"@[27] == 'f');
    assert("minecraft:crafting_special_shielddecoration"@.len() == 43);
    assert("minecraft:crafting_special_firework_star_fade"@.len() == 45);
    // The namespaced form of each bare name is its table entry; a name that
    // already carries the namespace is excluded.
    if name == "blasting"@ {
        assert("minecraft:"@ + name =~= "minecraft:blasting"@);
    }
    if name == "campfire_cooking"@ {
        assert("minecraft:"@ + name =~= "minecraft:campfire_cooking"@);
    }
    if name == "crafting_decorated_pot"@ {
        assert("minecraft:"@ + name =~= "minecraft:crafting_decorated_pot"@);
    }
    if name == "crafting_imbue"@ {
        assert("minecraft:"@ + name =~= "minecraft:crafting_imbue"@);
    }
    if name == "crafting_shaped"@ {
        assert("minecraft:"@ + name =~= "minecraft:crafting_shaped"@);
    }
    if name == "crafting_shapeless"@ {
        assert("minecraft:"@ + name =~= "minecraft:crafting_shapeless"@);
    }
    if name == "crafting_special_bannerduplicate"@ {
        assert("minecraft:"@ + name =~= "minecraft:crafting_special_bannerduplicate"@);
    }
    if name == "crafting_special_bookcloning"@ {
        assert("minecraft:"@ + name =~= "minecraft:crafting_special_bookcloning"@);
    }
    if name == "crafting_special_firework_rocket"@ {
        assert("minecraft:"@ + name =~= "minecraft:crafting_special_firework_rocket"@);
    }
    if name == "crafting_special_firework_star"@ {
        assert("minecraft:"@ + name =~= "minecraft:crafting_special_firework_star"@);
    }
    if name == "crafting_special_firework_star_fade"@ {
        assert("minecraft:"@ + name =~= "minecraft:crafting_special_firework_star_fade"@);
    }
    if name == "crafting_special_mapextending"@ {
        assert("minecraft:"@ + name =~= "minecraft:crafting_special_mapextending"@);
    }
    if name == "crafting_special_repairitem"@ {
        assert("minecraft:"@ + name =~= "minecraft:crafting_special_repairitem"@);
    }
    if name == "crafting_special_shielddecoration"@ {
        assert("minecraft:"@ + name =~= "minecraft:crafting_special_shielddecoration"@);
    }
    if name == "crafting_transmute"@ {
        assert("minecraft:"@ + name =~= "minecraft:crafting_transmute"@);
    }
    if name == "minecraft:blasting"@ {
        assert(name.take(10) =~= "minecraft:"@);
    }
    if name == "minecraft:campfire_cooking"@ {
        assert(name.take(10) =~= "minecraft:"@);
    }
    if name == "minecraft:crafting_decorated_pot"@ {
        assert(name.take(10) =~= "minecraft:"@);
    }
    if name == "minecraft:crafting_dye"@ {
        assert(name.take(10) =~= "minecraft:"@);
    }
    if name == "minecraft:crafting_imbue"@ {
        assert(name.take(10) =~= "minecraft:"@);
    }
    if name == "minecraft:crafting_shaped"@ {
        assert(name.take(10) =~= "minecraft:"@);
    }
    if name == "minecraft:crafting_shapeless"@ {
        assert(name.take(10) =~= "minecraft:"@);
    }
    if name == "minecraft:crafting_special_bannerduplicate"@ {
        assert(name.take(10) =~= "minecraft:"@);
    }
    if name == "minecraft:crafting_special_bookcloning"@ {
        assert(name.take(10) =~= "minecraft:"@);
    }
    if name == "minecraft:crafting_special_firework_rocket"@ {
        assert(name.take(10) =~= "minecraft:"@);
    }
    if name == "minecraft:crafting_special_firework_star"@ {
        assert(name.take(10) =~= "minecraft:"@);
    }
    if name == "minecraft:crafting_special_firework_star_fade"@ {
        assert(name.take(10) =~= "minecraft:"@);
    }
    if name == "minecraft:crafting_special_mapextending"@ {
        assert(name.take(10) =~= "minecraft:"@);
    }
    if name == "minecraft:crafting_special_repairitem"@ {
        assert(name.take(10) =~= "minecraft:"@);
    }
    if name == "minecraft:crafting_special_shielddecoration"@ {
        assert(name.take(10) =~= "minecraft:"@);
    }
    if name == "minecraft:crafting_transmute"@ {
        assert(name.take(10) =~= "minecraft:"@);
    }
    if name == "minecraft:smelting"@ {
        assert(name.take(10) =~= "minecraft:"@);
    }
    if name == "minecraft:smithing_transform"@ {
        assert(name.take(10) =~= "minecraft:"@);
    }
    if name == "minecraft:smithing_trim"@ {
        assert(name.take(10) =~= "minecraft:"@);
    }
    if name == "minecraft:smoking"@ {
        assert(name.take(10) =~= "minecraft:"@);
    }
    if name == "minecraft:stonecutting"@ {
        assert(name.take(10) =~= "minecraft:"@);
    }
    if name == "smelting"@ {
        assert("minecraft:"@ + name =~= "minecraft:smelting"@);
    }
    if name == "smithing_transform"@ {
        assert("minecraft:"@ + name =~= "minecraft:smithing_transform"@);
    }
    if name == "smithing_trim"@ {
        assert("minecraft:"@ + name =~= "minecraft:smithing_trim"@);
    }
    if name == "smoking"@ {
        assert("minecraft:"@ + name =~= "minecraft:smoking"@);
    }
    if name == "stonecutting"@ {
        assert("minecraft:"@ + name =~= "minecraft:stonecutting"@);
    }
}

impl RecipeType {
    /// The recipe type that a type name from a data file denotes, compared
    /// without regard to case. A name that is not a known type is not
    /// accepted (see `try_from` for a form that tells).
    pub fn from(value: String) -> (r: RecipeType)
        requires
            recipe_type_named(lowercase_of(value@)) is Some,
        ensures
            Some(r) == recipe_type_named(lowercase_of(value@)),
    {
        let name = to_lowercase(value.as_str());
        match Self::from_lowercase(name.as_str()) {
            Some(t) => t,
            None => vstd::pervasive::unreached(),
        }
    }

    /// The recipe type that a type name from a data file denotes, compared
    /// without regard to case; `None` for a name that is not a known type.
    pub fn try_from(value: String) -> (r: Option<RecipeType>)
        ensures
            r == recipe_type_named(lowercase_of(value@)),
    {
        let name = to_lowercase(value.as_str());
        if Self::from_lowercase(name.as_str()).is_some() {
            Some(Self::from(value))
        } else {
            None
        }
    }

    /// The recipe type that a lowercase type name denotes, by the table
    /// `recipe_type_named`; `None` for a name the table does not hold.
    pub fn from_lowercase(name: &str) -> (r: Option<RecipeType>)
        ensures
            r == recipe_type_named(name@),
    {
        let name = name.to_string();
        if eq_literal(&name, "minecraft:crafting_special_mapextending") || eq_literal(&name, "crafting_special_mapextending") {
            Some(RecipeType::CraftingSpecialMapextending)
        } else if eq_literal(&name, "minecraft:smithing_transform") || eq_literal(&name, "smithing_transform") {
            Some(RecipeType::SmithingTransform)
        } else if eq_literal(&name, "minecraft:crafting_decorated_pot") || eq_literal(&name, "crafting_decorated_pot") {
            Some(RecipeType::CraftingDecoratedPot)
        } else if eq_literal(&name, "minecraft:crafting_shapeless") || eq_literal(&name, "crafting_shapeless") {
            Some(RecipeType::CraftingShapeless)
        } else if eq_literal(&name, "minecraft:crafting_shaped") || eq_literal(&name, "crafting_shaped") {
            Some(RecipeType::CraftingShaped)
        } else if eq_literal(&name, "minecraft:crafting_special_bannerduplicate") || eq_literal(&name, "crafting_special_bannerduplicate") {
            Some(RecipeType::CraftingSpecialBannerduplicate)
        } else if eq_literal(&name, "minecraft:crafting_special_repairitem") || eq_literal(&name, "crafting_special_repairitem") {
            Some(RecipeType::CraftingSpecialRepairitem)
        } else if eq_literal(&name, "minecraft:crafting_transmute") || eq_literal(&name, "crafting_transmute") {
            Some(RecipeType::CraftingTransmute)
        } else if eq_literal(&name, "minecraft:blasting") || eq_literal(&name, "blasting") {
            Some(RecipeType::Blasting)
        } else if eq_literal(&name, "minecraft:campfire_cooking") || eq_literal(&name, "campfire_cooking") {
            Some(RecipeType::CampfireCooking)
        } else if eq_literal(&name, "minecraft:crafting_special_shielddecoration") || eq_literal(&name, "crafting_special_shielddecoration") {
            Some(RecipeType::CraftingSpecialShielddecoration)
        } else if eq_literal(&name, "minecraft:stonecutting") || eq_literal(&name, "stonecutting") {
            Some(RecipeType::Stonecutting)
        } else if eq_literal(&name, "minecraft:crafting_imbue") || eq_literal(&name, "crafting_imbue") {
            Some(RecipeType::CraftingImbue)
        } else if eq_literal(&name, "minecraft:smithing_trim") || eq_literal(&name, "smithing_trim") {
            Some(RecipeType::SmithingTrim)
        } else if eq_literal(&name, "minecraft:crafting_special_firework_rocket") || eq_literal(&name, "crafting_special_firework_rocket") {
            Some(RecipeType::CraftingSpecialFireworkRocket)
        } else if eq_literal(&name, "minecraft:smoking") || eq_literal(&name, "smoking") {
            Some(RecipeType::Smoking)
        } else if eq_literal(&name, "minecraft:crafting_special_firework_star") || eq_literal(&name, "crafting_special_firework_star") {
            Some(RecipeType::CraftingSpecialFireworkStar)
        } else if eq_literal(&name, "minecraft:smelting") || eq_literal(&name, "smelting") {
            Some(RecipeType::Smelting)
        } else if eq_literal(&name, "minecraft:crafting_special_bookcloning") || eq_literal(&name, "crafting_special_bookcloning") {
            Some(RecipeType::CraftingSpecialBookcloning)
        } else if eq_literal(&name, "minecraft:crafting_special_firework_star_fade") || eq_literal(&name, "crafting_special_firework_star_fade") {
            Some(RecipeType::CraftingSpecialFireworkStarFade)
        } else if eq_literal(&name, "minecraft:crafting_dye") {
            Some(RecipeType::CraftingDye)
        } else {
            None
        }
    }
}

} // verus!
