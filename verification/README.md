# ccmk4

Works out which Minecraft items can be crafted from an inventory, given the
game's recipes and item tags. The crafting logic is written in Verus and its
contracts are proved.

- `src/recipes/recipe.rs`, `recipe_type.rs`: the recipe records of the data
  files and the recipe types they name.
- `src/recipes/tags.rs`: item tags and the resolution of `#tag` tokens to the
  item ids they stand for (nested tags included, cycles broken).
- `src/recipes/crafting.rs`: the crafting engine: ingredient slots, the recipe
  book, the obtainable items of an inventory (the least set closed under
  crafting) and the queue-driven computation of it.
- `src/recipes/tree_builder.rs`: `TreeBuilder`, crafting from recipe records.
- `src/builder.rs`: `Ccmk4Builder`, which a host fills tag by tag and slot by
  slot and which caches its prepared index between builds.
- `app/`: reading the JSON data files, the C ABI for a Java host, and two
  developer tools (fetching the game's recipe files, writing a random
  inventory).
