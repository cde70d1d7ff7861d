use vstd::prelude::*;

pub mod crafting;
pub mod inventory;
pub mod recipe;
pub mod recipe_type;
pub mod tags;
pub mod text;
pub mod tree_builder;

verus! {

/// An item id together with a quantity: an inventory stack, or a craftable
/// item with the number one craft yields.
#[derive(Clone)]
pub struct Item {
    pub id: String,
    pub quantity: u8,
}

/// The ids of a list of items.
pub open spec fn item_ids(items: Seq<Item>) -> Set<Seq<char>> {
    Set::new(|x: Seq<char>| exists|i: int| 0 <= i < items.len() && #[trigger] items[i].id@ == x)
}

} // verus!
