//! The recipe records of the game's data files.
use vstd::prelude::*;

use crate::recipes::recipe_type::RecipeType;
use crate::recipes::text::{distinct_options, distinct_views, view_set};

verus! {

broadcast use vstd::string::group_string_axioms;

/// Declares `serde_json::Error` so that `RecipeError` can carry it; nothing
/// is claimed of its contents.
#[verifier::external_type_specification]
#[verifier::external_body]
pub struct ExJsonError(serde_json::Error);

/// Declares `std::io::Error` so that `RecipeError` can carry it; nothing is
/// claimed of its contents.
#[verifier::external_type_specification]
#[verifier::external_body]
pub struct ExIoError(std::io::Error);

/// Why recipe or tag data could not be loaded.
pub enum RecipeError {
    /// A data file is not valid JSON of the expected shape.
    SerializationError(serde_json::Error),
    /// A data file or directory could not be read.
    IOError(std::io::Error),
}

/// One recipe as the data files state it. The `key` map of a shaped recipe is
/// kept as its (symbol, ingredient) pairs.
#[derive(Debug, Clone)]
pub struct Recipe {
    pub recipe_type: RecipeType,
    pub group: Option<String>,
    pub key: Option<Vec<(String, StringOrArray)>>,
    pub ingredients: Option<Vec<StringOrArray>>,
    pub pattern: Option<StringOrArray>,
    pub result: Option<RecipeResult>,
}

/// An ingredient: one item id, or a list of interchangeable ones.
#[derive(Debug, Clone)]
pub enum StringOrArray {
    String(String),
    Array(Vec<String>),
}

/// The item a recipe makes and how many of it one craft yields.
#[derive(Debug, Clone)]
pub struct RecipeResult {
    pub id: String,
    pub count: u8,
}

impl StringOrArray {
    /// The ids that can fill this ingredient.
    pub open spec fn option_set(&self) -> Set<Seq<char>> {
        match self {
            StringOrArray::String(id) => set![id@],
            StringOrArray::Array(ids) => view_set(ids@),
        }
    }

    /// The ids that can fill this ingredient, each once.
    pub fn options(&self) -> (r: Vec<String>)
        ensures
            distinct_views(r@),
            view_set(r@) == self.option_set(),
    {
        match self {
            StringOrArray::String(id) => {
                let mut r: Vec<String> = Vec::new();
                r.push(id.clone());
                assert(view_set(r@) =~= self.option_set()) by {
                    assert(r@[0]@ == id@);
                }
                r
            },
            StringOrArray::Array(ids) => distinct_options(ids),
        }
    }
}

} // verus!
