//! Works out which items can be crafted from an inventory with a list of
//! recipes.
use vstd::prelude::*;

use crate::recipes::crafting::{
    add_slot, at_least_one, book_of_raw, consolidate, lemma_consolidate_shape, lemma_consolidate_step, lemma_first_yield_some, obtainable, prepare_index, slot_sets,
    slots_distinct, yield_of, BookEntry, RawRecipe,
};
use crate::recipes::recipe::{Recipe, RecipeError, StringOrArray};
use crate::recipes::tags::{token_options, Tags};
use crate::recipes::text::{distinct_views, push_distinct, view_set, views};
use crate::recipes::{item_ids, Item};

verus! {

broadcast use vstd::string::group_string_axioms;

/// Why building the crafting tree failed.
pub enum TreeBuilderError {
    RecipeError(RecipeError),
}

/// The ids of the items that some recipe of the list makes.
pub open spec fn output_ids(recipes: Seq<Recipe>) -> Set<Seq<char>> {
    Set::new(
        |x: Seq<char>|
            exists|k: int|
                0 <= k < recipes.len() && (#[trigger] recipes[k]).result is Some && recipes[k].result.unwrap().id@ == x,
    )
}

/// Each recipe's result, in order, as (id, count) pairs, for the recipes that
/// make `key`.
pub open spec fn results_for(recipes: Seq<Recipe>, key: Seq<char>) -> Seq<(Seq<char>, u8)>
    decreases recipes.len(),
{
    if recipes.len() == 0 {
        Seq::empty()
    } else {
        let prev = results_for(recipes.drop_last(), key);
        match recipes.last().result {
            Some(res) => if res.id@ == key {
                prev.push((res.id@, res.count))
            } else {
                prev
            },
            None => prev,
        }
    }
}

/// Whether a recipe has a result, and that result is the item `key`.
pub open spec fn makes(r: Recipe, key: Seq<char>) -> bool {
    r.result matches Some(res) && res.id@ == key
}

/// The results listed for an id are one per recipe that makes it, in recipe
/// order, each with that recipe's count: none is dropped or merged, however
/// many recipes make the same item with the same count.
pub proof fn lemma_results_for_each_recipe(recipes: Seq<Recipe>, key: Seq<char>)
    ensures
        results_for(recipes, key).len() == recipes.filter(|r: Recipe| makes(r, key)).len(),
        forall|i: int| 0 <= i < results_for(recipes, key).len() ==> #[trigger] results_for(recipes, key)[i] == (
            key,
            recipes.filter(|r: Recipe| makes(r, key))[i].result.unwrap().count,
        ),
    decreases recipes.len(),
{
    reveal(Seq::filter);
    let f = |r: Recipe| makes(r, key);
    if recipes.len() > 0 {
        let prev = recipes.drop_last();
        lemma_results_for_each_recipe(prev, key);
        assert(recipes.filter(f) == if f(recipes.last()) {
            prev.filter(f).push(recipes.last())
        } else {
            prev.filter(f)
        });
    }
}

/// The (id, quantity) pairs of a list of items.
pub open spec fn item_views(items: Seq<Item>) -> Seq<(Seq<char>, u8)> {
    items.map_values(|it: Item| (it.id@, it.quantity))
}

proof fn lemma_results_for_absent(recipes: Seq<Recipe>, key: Seq<char>)
    requires
        !output_ids(recipes).contains(key),
    ensures
        results_for(recipes, key) == Seq::<(Seq<char>, u8)>::empty(),
    decreases recipes.len(),
{
    if recipes.len() > 0 {
        let prev = recipes.drop_last();
        assert(!output_ids(prev).contains(key)) by {
            if output_ids(prev).contains(key) {
                let k = choose|k: int| 0 <= k < prev.len() && (#[trigger] prev[k]).result is Some && prev[k].result.unwrap().id@ == key;
                assert(recipes[k] == prev[k]);
            }
        }
        lemma_results_for_absent(prev, key);
        if recipes.last().result is Some {
            assert(recipes[recipes.len() - 1] == recipes.last());
        }
    }
}

proof fn lemma_output_ids_step(recipes: Seq<Recipe>, k: int)
    requires
        0 <= k < recipes.len(),
    ensures
        output_ids(recipes.take(k + 1)) == match recipes[k].result {
            Some(res) => output_ids(recipes.take(k)).insert(res.id@),
            None => output_ids(recipes.take(k)),
        },
{
    let a = recipes.take(k);
    let b = recipes.take(k + 1);
    let want = match recipes[k].result {
        Some(res) => output_ids(a).insert(res.id@),
        None => output_ids(a),
    };
    assert forall|x: Seq<char>| output_ids(b).contains(x) <==> want.contains(x) by {
        if output_ids(b).contains(x) {
            let q = choose|q: int| 0 <= q < b.len() && (#[trigger] b[q]).result is Some && b[q].result.unwrap().id@ == x;
            if q < k {
                assert(a[q] == b[q]);
            }
        }
        if output_ids(a).contains(x) {
            let q = choose|q: int| 0 <= q < a.len() && (#[trigger] a[q]).result is Some && a[q].result.unwrap().id@ == x;
            assert(b[q] == a[q]);
        }
        if recipes[k].result is Some && x == recipes[k].result.unwrap().id@ {
            assert(b[k] == recipes[k]);
        }
    }
    assert(output_ids(b) =~= want);
}

/// An id has recipe results exactly when some recipe makes it: the groups of
/// `flat` are keyed by the same ids that `items` lists.
pub proof fn lemma_results_for_nonempty(recipes: Seq<Recipe>, key: Seq<char>)
    ensures
        results_for(recipes, key).len() > 0 <==> output_ids(recipes).contains(key),
    decreases recipes.len(),
{
    if recipes.len() == 0 {
    } else {
        let prev = recipes.drop_last();
        lemma_results_for_nonempty(prev, key);
        lemma_output_ids_step(recipes, recipes.len() - 1);
        assert(recipes.take(recipes.len() - 1) =~= prev);
        assert(recipes.take(recipes.len() as int) =~= recipes);
    }
}

/// The position of the group for `id`.
fn group_position(groups: &Vec<(String, Vec<Item>)>, id: &String) -> (r: Option<usize>)
    ensures
        match r {
            Some(i) => i < groups.len() && groups@[i as int].0@ == id@,
            None => forall|b: int| 0 <= b < groups.len() ==> groups@[b].0@ != id@,
        },
{
    let mut a: usize = 0;
    while a < groups.len()
        invariant
            a <= groups.len(),
            forall|b: int| 0 <= b < a ==> groups@[b].0@ != id@,
        decreases groups.len() - a,
    {
        if groups[a].0 == *id {
            return Some(a);
        }
        a = a + 1;
    }
    None
}

/// The option sets of a recipe's ingredient sources: the values of its `key`
/// map in order, then its `ingredients`.
pub open spec fn recipe_sources(r: Recipe) -> Seq<Set<Seq<char>>> {
    let keyed = match r.key {
        Some(kv) => Seq::new(kv@.len(), |i: int| kv@[i].1.option_set()),
        None => Seq::empty(),
    };
    let listed = match r.ingredients {
        Some(v) => Seq::new(v@.len(), |i: int| v@[i].option_set()),
        None => Seq::empty(),
    };
    keyed + listed
}

/// The tokens an ingredient source lists.
pub open spec fn source_tokens(s: StringOrArray) -> Seq<Seq<char>> {
    match s {
        StringOrArray::String(id) => seq![id@],
        StringOrArray::Array(ids) => views(ids@),
    }
}

/// The token lists of a recipe's ingredient sources: the values of its `key`
/// map in order, then its `ingredients`; one slot each.
pub open spec fn recipe_tokens(r: Recipe) -> Seq<Seq<Seq<char>>> {
    let keyed = match r.key {
        Some(kv) => Seq::new(kv@.len(), |i: int| source_tokens(kv@[i].1)),
        None => Seq::empty(),
    };
    let listed = match r.ingredients {
        Some(v) => Seq::new(v@.len(), |i: int| source_tokens(v@[i])),
        None => Seq::empty(),
    };
    keyed + listed
}

/// The recipe book that a list of recipes forms: one entry per recipe with a
/// result, in order, whose slots are the recipe's consolidated sources.
pub open spec fn book_of(recipes: Seq<Recipe>) -> Seq<BookEntry>
    decreases recipes.len(),
{
    if recipes.len() == 0 {
        Seq::empty()
    } else {
        let prev = book_of(recipes.drop_last());
        match recipes.last().result {
            Some(res) => prev.push(
                BookEntry {
                    output: res.id@,
                    count: res.count as u32,
                    slots: consolidate(recipe_sources(recipes.last()), res.id@),
                },
            ),
            None => prev,
        }
    }
}

/// The recipe book that a list of recipes forms when their ingredient tokens
/// are resolved through `tags`: one entry per recipe with a result, in order,
/// whose slots are what each ingredient source's tokens resolve to,
/// consolidated.
pub open spec fn book_with_tags(tags: Map<Seq<char>, Seq<Seq<char>>>, recipes: Seq<Recipe>) -> Seq<BookEntry>
    decreases recipes.len(),
{
    if recipes.len() == 0 {
        Seq::empty()
    } else {
        let prev = book_with_tags(tags, recipes.drop_last());
        match recipes.last().result {
            Some(res) => prev.push(
                BookEntry {
                    output: res.id@,
                    count: res.count as u32,
                    slots: consolidate(tagged_sources(tags, recipes.last()), res.id@),
                },
            ),
            None => prev,
        }
    }
}

/// The recipe book has one entry per recipe with a result, in recipe order:
/// that recipe's result id and count, and the slots its ingredient sources
/// give; recipes without a result add nothing.
pub proof fn lemma_book_entry_per_recipe(tags: Map<Seq<char>, Seq<Seq<char>>>, recipes: Seq<Recipe>)
    ensures
        book_of(recipes).len() == recipes.filter(|r: Recipe| r.result is Some).len(),
        book_with_tags(tags, recipes).len() == recipes.filter(|r: Recipe| r.result is Some).len(),
        forall|i: int| 0 <= i < book_of(recipes).len() ==> {
            let r = recipes.filter(|r: Recipe| r.result is Some)[i];
            &&& (#[trigger] book_of(recipes)[i]).output == r.result.unwrap().id@
            &&& book_of(recipes)[i].count == r.result.unwrap().count
            &&& book_of(recipes)[i].slots == consolidate(recipe_sources(r), r.result.unwrap().id@)
        },
        forall|i: int| 0 <= i < book_with_tags(tags, recipes).len() ==> {
            let r = recipes.filter(|r: Recipe| r.result is Some)[i];
            &&& (#[trigger] book_with_tags(tags, recipes)[i]).output == r.result.unwrap().id@
            &&& book_with_tags(tags, recipes)[i].count == r.result.unwrap().count
            &&& book_with_tags(tags, recipes)[i].slots == consolidate(tagged_sources(tags, r), r.result.unwrap().id@)
        },
    decreases recipes.len(),
{
    reveal(Seq::filter);
    let f = |r: Recipe| r.result is Some;
    if recipes.len() > 0 {
        let prev = recipes.drop_last();
        lemma_book_entry_per_recipe(tags, prev);
        assert(recipes.filter(f) == if f(recipes.last()) {
            prev.filter(f).push(recipes.last())
        } else {
            prev.filter(f)
        });
    }
}

/// What each ingredient source of a recipe can be filled by, its tokens
/// resolved through `tags`.
pub open spec fn tagged_sources(tags: Map<Seq<char>, Seq<Seq<char>>>, r: Recipe) -> Seq<Set<Seq<char>>> {
    Seq::new(recipe_tokens(r).len(), |q: int| token_options(tags, recipe_tokens(r)[q]))
}

/// Every ingredient source of a recipe, each value of its `key` map and each
/// listed ingredient, becomes one of the recipe's slots (with the recipe's
/// own output taken out), unless it offers nothing besides that output; and
/// every slot comes from one of them. So a shaped recipe is craftable only
/// when each of its key's ingredients can be had.
pub proof fn lemma_recipe_slots_cover_sources(r: Recipe, output: Seq<char>)
    ensures
        r.key matches Some(kv) ==> forall|i: int| 0 <= i < kv@.len()
            && #[trigger] kv@[i].1.option_set().remove(output) != Set::<Seq<char>>::empty()
            ==> consolidate(recipe_sources(r), output).contains(kv@[i].1.option_set().remove(output)),
        r.ingredients matches Some(v) ==> forall|j: int| 0 <= j < v@.len()
            && #[trigger] v@[j].option_set().remove(output) != Set::<Seq<char>>::empty()
            ==> consolidate(recipe_sources(r), output).contains(v@[j].option_set().remove(output)),
        forall|q: int| 0 <= q < consolidate(recipe_sources(r), output).len() ==> {
            let slot = #[trigger] consolidate(recipe_sources(r), output)[q];
            ||| (r.key matches Some(kv) && exists|i: int| 0 <= i < kv@.len() && slot == kv@[i].1.option_set().remove(output))
            ||| (r.ingredients matches Some(v) && exists|j: int| 0 <= j < v@.len() && slot == v@[j].option_set().remove(output))
        },
{
    let sources = recipe_sources(r);
    let nk: int = match r.key {
        Some(kv) => kv@.len() as int,
        None => 0,
    };
    lemma_consolidate_shape(sources, output);
    lemma_consolidate_from_sources(sources, output);
    match r.key {
        Some(kv) => {
            assert forall|i: int| 0 <= i < kv@.len() && #[trigger] kv@[i].1.option_set().remove(output) != Set::<Seq<char>>::empty()
                implies consolidate(sources, output).contains(kv@[i].1.option_set().remove(output)) by {
                assert(sources[i] == kv@[i].1.option_set());
            }
        },
        None => {},
    }
    match r.ingredients {
        Some(v) => {
            assert forall|j: int| 0 <= j < v@.len() && #[trigger] v@[j].option_set().remove(output) != Set::<Seq<char>>::empty()
                implies consolidate(sources, output).contains(v@[j].option_set().remove(output)) by {
                assert(sources[nk + j] == v@[j].option_set());
            }
        },
        None => {},
    }
    assert forall|q: int| 0 <= q < consolidate(sources, output).len() implies {
        let slot = #[trigger] consolidate(sources, output)[q];
        ||| (r.key matches Some(kv) && exists|i: int| 0 <= i < kv@.len() && slot == kv@[i].1.option_set().remove(output))
        ||| (r.ingredients matches Some(v) && exists|j: int| 0 <= j < v@.len() && slot == v@[j].option_set().remove(output))
    } by {
        let p = choose|p: int| 0 <= p < sources.len() && consolidate(sources, output)[q] == sources[p].remove(output);
        if p < nk {
            match r.key {
                Some(kv) => {
                    assert(sources[p] == kv@[p].1.option_set());
                },
                None => {},
            }
        } else {
            match r.ingredients {
                Some(v) => {
                    assert(sources[p] == v@[p - nk].option_set());
                },
                None => {},
            }
        }
    }
}

/// The same with the recipe's tokens resolved through `tags`: each value of
/// its `key` map and each listed ingredient gives a slot holding what its
/// tokens resolve to (without the output), unless that is nothing else; and
/// every slot comes from one of them.
pub proof fn lemma_tagged_slots_cover_sources(tags: Map<Seq<char>, Seq<Seq<char>>>, r: Recipe, output: Seq<char>)
    ensures
        r.key matches Some(kv) ==> forall|i: int| 0 <= i < kv@.len()
            && #[trigger] token_options(tags, source_tokens(kv@[i].1)).remove(output) != Set::<Seq<char>>::empty()
            ==> consolidate(tagged_sources(tags, r), output).contains(token_options(tags, source_tokens(kv@[i].1)).remove(output)),
        r.ingredients matches Some(v) ==> forall|j: int| 0 <= j < v@.len()
            && #[trigger] token_options(tags, source_tokens(v@[j])).remove(output) != Set::<Seq<char>>::empty()
            ==> consolidate(tagged_sources(tags, r), output).contains(token_options(tags, source_tokens(v@[j])).remove(output)),
        forall|q: int| 0 <= q < consolidate(tagged_sources(tags, r), output).len() ==> {
            let slot = #[trigger] consolidate(tagged_sources(tags, r), output)[q];
            ||| (r.key matches Some(kv) && exists|i: int| 0 <= i < kv@.len()
                && slot == token_options(tags, source_tokens(kv@[i].1)).remove(output))
            ||| (r.ingredients matches Some(v) && exists|j: int| 0 <= j < v@.len()
                && slot == token_options(tags, source_tokens(v@[j])).remove(output))
        },
{
    let sources = tagged_sources(tags, r);
    let tokens = recipe_tokens(r);
    let nk: int = match r.key {
        Some(kv) => kv@.len() as int,
        None => 0,
    };
    lemma_consolidate_shape(sources, output);
    lemma_consolidate_from_sources(sources, output);
    match r.key {
        Some(kv) => {
            assert forall|i: int| 0 <= i < kv@.len()
                && #[trigger] token_options(tags, source_tokens(kv@[i].1)).remove(output) != Set::<Seq<char>>::empty()
                implies consolidate(sources, output).contains(token_options(tags, source_tokens(kv@[i].1)).remove(output)) by {
                assert(tokens[i] == source_tokens(kv@[i].1));
                assert(sources[i] == token_options(tags, source_tokens(kv@[i].1)));
            }
        },
        None => {},
    }
    match r.ingredients {
        Some(v) => {
            assert forall|j: int| 0 <= j < v@.len()
                && #[trigger] token_options(tags, source_tokens(v@[j])).remove(output) != Set::<Seq<char>>::empty()
                implies consolidate(sources, output).contains(token_options(tags, source_tokens(v@[j])).remove(output)) by {
                assert(tokens[nk + j] == source_tokens(v@[j]));
                assert(sources[nk + j] == token_options(tags, source_tokens(v@[j])));
            }
        },
        None => {},
    }
    assert forall|q: int| 0 <= q < consolidate(sources, output).len() implies {
        let slot = #[trigger] consolidate(sources, output)[q];
        ||| (r.key matches Some(kv) && exists|i: int| 0 <= i < kv@.len()
            && slot == token_options(tags, source_tokens(kv@[i].1)).remove(output))
        ||| (r.ingredients matches Some(v) && exists|j: int| 0 <= j < v@.len()
            && slot == token_options(tags, source_tokens(v@[j])).remove(output))
    } by {
        let p = choose|p: int| 0 <= p < sources.len() && consolidate(sources, output)[q] == sources[p].remove(output);
        if p < nk {
            match r.key {
                Some(kv) => {
                    assert(tokens[p] == source_tokens(kv@[p].1));
                },
                None => {},
            }
        } else {
            match r.ingredients {
                Some(v) => {
                    assert(tokens[p] == source_tokens(v@[p - nk]));
                },
                None => {},
            }
        }
    }
}

/// Every slot that consolidation keeps is some source with the output taken
/// out.
proof fn lemma_consolidate_from_sources(sources: Seq<Set<Seq<char>>>, output: Seq<char>)
    ensures
        forall|q: int| 0 <= q < consolidate(sources, output).len() ==> exists|p: int|
            0 <= p < sources.len() && #[trigger] consolidate(sources, output)[q] == sources[p].remove(output),
    decreases sources.len(),
{
    if sources.len() > 0 {
        let prev_sources = sources.drop_last();
        lemma_consolidate_from_sources(prev_sources, output);
        let prev = consolidate(prev_sources, output);
        let c = consolidate(sources, output);
        assert forall|q: int| 0 <= q < c.len() implies exists|p: int|
            0 <= p < sources.len() && #[trigger] c[q] == sources[p].remove(output) by {
            if q < prev.len() {
                assert(c[q] == prev[q]);
                let p = choose|p: int| 0 <= p < prev_sources.len() && prev[q] == prev_sources[p].remove(output);
                assert(sources[p] == prev_sources[p]);
            } else {
                assert(c[q] == sources[sources.len() - 1].remove(output));
            }
        }
    }
}

/// What one ingredient source can be filled by, its tokens resolved through
/// the tags, each id once.
fn source_options(tags: &Tags, source: &StringOrArray) -> (r: Vec<String>)
    ensures
        distinct_views(r@),
        view_set(r@) == token_options(tags@, source_tokens(*source)),
{
    match source {
        StringOrArray::String(id) => {
            let mut tokens: Vec<String> = Vec::new();
            tokens.push(id.clone());
            assert(views(tokens@) =~= source_tokens(*source));
            tags.resolve_all(&tokens)
        },
        StringOrArray::Array(ids) => tags.resolve_all(ids),
    }
}

/// The ingredient slots of `recipe` with its tokens resolved through `tags`:
/// each source of its `key` map and its `ingredients`, as the set of ids its
/// tokens resolve to, without `output`; empty slots are dropped and identical
/// slots consolidated.
pub fn recipe_slots_with_tags(recipe: &Recipe, output: &String, tags: &Tags) -> (r: Vec<Vec<String>>)
    ensures
        slots_distinct(r@),
        slot_sets(r@) == consolidate(tagged_sources(tags@, *recipe), output@),
{
    let ghost sources = tagged_sources(tags@, *recipe);
    let mut slots: Vec<Vec<String>> = Vec::new();
    let ghost mut taken: int = 0;
    proof {
        assert(slot_sets(slots@) =~= consolidate(sources.take(0), output@));
    }
    match &recipe.key {
        Some(kv) => {
            let mut i: usize = 0;
            while i < kv.len()
                invariant
                    sources == tagged_sources(tags@, *recipe),
                    recipe.key == Some(*kv),
                    i <= kv.len(),
                    taken == i,
                    slots_distinct(slots@),
                    slot_sets(slots@) == consolidate(sources.take(taken), output@),
                decreases kv.len() - i,
            {
                let options = source_options(tags, &kv[i].1);
                proof {
                    assert(recipe_tokens(*recipe)[i as int] == source_tokens(kv@[i as int].1));
                    assert(sources[i as int] == token_options(tags@, source_tokens(kv@[i as int].1)));
                    lemma_consolidate_step(sources, output@, i as int);
                }
                add_slot(&mut slots, &options, output);
                i = i + 1;
                proof { taken = taken + 1; }
            }
        },
        None => {},
    }
    let ghost keyed = taken;
    match &recipe.ingredients {
        Some(v) => {
            let mut i: usize = 0;
            while i < v.len()
                invariant
                    sources == tagged_sources(tags@, *recipe),
                    recipe.ingredients == Some(*v),
                    keyed + v.len() == sources.len(),
                    keyed == match recipe.key { Some(kv) => kv@.len() as int, None => 0 },
                    i <= v.len(),
                    taken == keyed + i,
                    slots_distinct(slots@),
                    slot_sets(slots@) == consolidate(sources.take(taken), output@),
                decreases v.len() - i,
            {
                let options = source_options(tags, &v[i]);
                proof {
                    assert(recipe_tokens(*recipe)[taken] == source_tokens(v@[i as int]));
                    assert(sources[taken] == token_options(tags@, source_tokens(v@[i as int])));
                    lemma_consolidate_step(sources, output@, taken);
                }
                add_slot(&mut slots, &options, output);
                i = i + 1;
                proof { taken = taken + 1; }
            }
        },
        None => {},
    }
    assert(sources.take(taken) =~= sources);
    slots
}

/// The ingredient slots of `recipe`: each source of its `key` map and its
/// `ingredients`, as the set of ids that can fill it, without `output`;
/// empty slots are dropped and identical slots consolidated.
pub fn recipe_slots(recipe: &Recipe, output: &String) -> (r: Vec<Vec<String>>)
    ensures
        slots_distinct(r@),
        slot_sets(r@) == consolidate(recipe_sources(*recipe), output@),
{
    let ghost sources = recipe_sources(*recipe);
    let mut slots: Vec<Vec<String>> = Vec::new();
    let ghost mut taken: int = 0;
    proof {
        assert(slot_sets(slots@) =~= consolidate(sources.take(0), output@));
    }
    match &recipe.key {
        Some(kv) => {
            let mut i: usize = 0;
            while i < kv.len()
                invariant
                    sources == recipe_sources(*recipe),
                    recipe.key == Some(*kv),
                    i <= kv.len(),
                    taken == i,
                    slots_distinct(slots@),
                    slot_sets(slots@) == consolidate(sources.take(taken), output@),
                decreases kv.len() - i,
            {
                let options = kv[i].1.options();
                proof {
                    assert(sources[i as int] == kv@[i as int].1.option_set());
                    lemma_consolidate_step(sources, output@, i as int);
                }
                add_slot(&mut slots, &options, output);
                i = i + 1;
                proof { taken = taken + 1; }
            }
        },
        None => {},
    }
    let ghost keyed = taken;
    match &recipe.ingredients {
        Some(v) => {
            let mut i: usize = 0;
            while i < v.len()
                invariant
                    sources == recipe_sources(*recipe),
                    recipe.ingredients == Some(*v),
                    keyed + v.len() == sources.len(),
                    i <= v.len(),
                    taken == keyed + i,
                    slots_distinct(slots@),
                    slot_sets(slots@) == consolidate(sources.take(taken), output@),
                decreases v.len() - i,
            {
                let options = v[i].options();
                proof {
                    assert(sources[taken] == v@[i as int].option_set());
                    lemma_consolidate_step(sources, output@, taken);
                }
                add_slot(&mut slots, &options, output);
                i = i + 1;
                proof { taken = taken + 1; }
            }
        },
        None => {},
    }
    assert(sources.take(taken) =~= sources);
    slots
}

/// The items craftable from `items` with the recipe book that `raws` form,
/// each once, with its yield counted as at least 1.
fn craft_items(raws: Vec<RawRecipe>, items: &Vec<Item>) -> (out: Vec<Item>)
    requires
        forall|q: int| 0 <= q < raws.len() ==> #[trigger] raws@[q].count <= 255,
    ensures
        ({
            let book = book_of_raw(raws@);
            let ob = obtainable(book, item_ids(items@));
            &&& forall|a: int, b: int| 0 <= a < out.len() && 0 <= b < out.len() && a != b ==> out@[a].id@ != out@[b].id@
            &&& forall|a: int| #![trigger out@[a]] 0 <= a < out.len() ==> yield_of(book, ob, out@[a].id@) is Some
                && out@[a].quantity == at_least_one(yield_of(book, ob, out@[a].id@).unwrap())
            &&& forall|o: Seq<char>| #[trigger] yield_of(book, ob, o) is Some ==> exists|a: int|
                0 <= a < out.len() && out@[a].id@ == o
        }),
{
    let ghost raws_view = raws@;
    let ghost book = book_of_raw(raws@);
    assert forall|k2: int| 0 <= k2 < book.len() implies #[trigger] book[k2].count <= 255 by {
        assert(book[k2].count == raws@[k2].count);
    }
    let index = prepare_index(raws);
    let mut inventory: Vec<String> = Vec::new();
    let mut t: usize = 0;
    while t < items.len()
        invariant
            t <= items.len(),
            inventory@.len() == t,
            forall|u: int| 0 <= u < t ==> #[trigger] inventory@[u]@ == items@[u].id@,
        decreases items.len() - t,
    {
        inventory.push(items[t].id.clone());
        t = t + 1;
    }
    proof {
        assert(view_set(inventory@) =~= item_ids(items@)) by {
            assert forall|x: Seq<char>| item_ids(items@).contains(x) implies view_set(inventory@).contains(x) by {
                let i = choose|i: int| 0 <= i < items@.len() && #[trigger] items@[i].id@ == x;
                assert(inventory@[i]@ == x);
            }
        }
    }
    let found = index.run(&inventory);
    let ghost ob = obtainable(book, item_ids(items@));
    let mut out: Vec<Item> = Vec::new();
    let mut i: usize = 0;
    while i < found.len()
        invariant
            book == book_of_raw(raws_view),
            index.book() == book,
            ob == obtainable(book, item_ids(items@)),
            forall|k2: int| 0 <= k2 < book.len() ==> #[trigger] book[k2].count <= 255,
            forall|a: int| 0 <= a < found.len() ==> yield_of(book, ob, #[trigger] found@[a].0@) == Some(found@[a].1),
            forall|a: int, b: int| 0 <= a < found.len() && 0 <= b < found.len() && a != b ==> found@[a].0@ != found@[b].0@,
            forall|o: Seq<char>| #[trigger] yield_of(book, ob, o) is Some ==> exists|a: int| 0 <= a < found.len() && found@[a].0@ == o,
            i <= found.len(),
            out@.len() == i,
            forall|a: int| 0 <= a < i ==> #[trigger] out@[a].id@ == found@[a].0@,
            forall|a: int| #![trigger out@[a]] 0 <= a < i ==> yield_of(book, ob, out@[a].id@) is Some
                && out@[a].quantity == at_least_one(yield_of(book, ob, out@[a].id@).unwrap()),
        decreases found.len() - i,
    {
        let c = found[i].1;
        proof {
            assert(yield_of(book, ob, found@[i as int].0@) == Some(c));
            lemma_first_yield_some(book, ob, found@[i as int].0@, book.len() as int);
        }
        let quantity: u8 = if c == 0 {
            1
        } else {
            c as u8
        };
        let ghost before = out@;
        out.push(Item { id: found[i].0.clone(), quantity });
        proof {
            assert forall|a: int| #![trigger out@[a]] 0 <= a < i + 1 implies yield_of(book, ob, out@[a].id@) is Some
                && out@[a].quantity == at_least_one(yield_of(book, ob, out@[a].id@).unwrap()) by {
                if a < i {
                    assert(out@[a] == before[a]);
                } else {
                    assert(out@[a].id@ == found@[a].0@);
                }
            }
            assert forall|a: int| 0 <= a < i + 1 implies #[trigger] out@[a].id@ == found@[a].0@ by {
                if a < i {
                    assert(out@[a] == before[a]);
                }
            }
        }
        i = i + 1;
    }
    proof {
        assert forall|a: int, b: int| 0 <= a < out.len() && 0 <= b < out.len() && a != b implies out@[a].id@ != out@[b].id@ by {
            assert(out@[a].id@ == found@[a].0@);
            assert(out@[b].id@ == found@[b].0@);
        }
        assert forall|o: Seq<char>| #[trigger] yield_of(book, ob, o) is Some implies exists|a: int|
            0 <= a < out.len() && out@[a].id@ == o by {
            let a = choose|a: int| 0 <= a < found.len() && found@[a].0@ == o;
            assert(out@[a].id@ == o);
        }
    }
    out
}

/// Works out what can be crafted with a list of recipes.
pub struct TreeBuilder {
    recipes: Vec<Recipe>,
}

impl TreeBuilder {
    /// The recipes this builder works with.
    pub closed spec fn recipes(&self) -> Seq<Recipe> {
        self.recipes@
    }

    pub fn new(recipes: Vec<Recipe>) -> (r: Self)
        ensures
            r.recipes() == recipes@,
    {
        Self { recipes }
    }

    /// The items that can be crafted from `items`, each once, with the number
    /// one craft yields (at least 1). An item can be crafted when one of its
    /// recipes has every slot fillable by an item of the inventory, by a raw
    /// material that no recipe makes (taken to be at hand), or by an item that
    /// can itself be crafted; its yield is that of its first such recipe.
    pub fn build(&self, items: Vec<Item>) -> (r: Result<Vec<Item>, TreeBuilderError>)
        ensures
            r is Ok,
            r matches Ok(out) ==> {
                let book = book_of(self.recipes());
                let ob = obtainable(book, item_ids(items@));
                &&& forall|a: int, b: int| 0 <= a < out.len() && 0 <= b < out.len() && a != b ==> out@[a].id@ != out@[b].id@
                &&& forall|a: int| #![trigger out@[a]] 0 <= a < out.len() ==> yield_of(book, ob, out@[a].id@) is Some
                    && out@[a].quantity == at_least_one(yield_of(book, ob, out@[a].id@).unwrap())
                &&& forall|o: Seq<char>| #[trigger] yield_of(book, ob, o) is Some ==> exists|a: int|
                    0 <= a < out.len() && out@[a].id@ == o
            },
    {
        let ghost book = book_of(self.recipes@);
        let mut raws: Vec<RawRecipe> = Vec::new();
        let mut k: usize = 0;
        while k < self.recipes.len()
            invariant
                k <= self.recipes.len(),
                book_of_raw(raws@) == book_of(self.recipes@.take(k as int)),
                forall|q: int| 0 <= q < raws.len() ==> #[trigger] raws@[q].count <= 255,
            decreases self.recipes.len() - k,
        {
            let recipe = &self.recipes[k];
            proof {
                assert(self.recipes@.take(k + 1).drop_last() =~= self.recipes@.take(k as int));
                assert(self.recipes@.take(k + 1).last() == self.recipes@[k as int]);
            }
            match &recipe.result {
                Some(res) => {
                    let slots = recipe_slots(recipe, &res.id);
                    let ghost before = raws@;
                    raws.push(RawRecipe { output: res.id.clone(), count: res.count as u32, slots });
                    proof {
                        assert(book_of_raw(raws@) =~= book_of_raw(before).push(raws@[before.len() as int].entry()));
                    }
                },
                None => {},
            }
            k = k + 1;
        }
        proof {
            assert(self.recipes@.take(k as int) =~= self.recipes@);
        }
        Ok(craft_items(raws, &items))
    }

    /// The items that can be crafted from `items`, as `build` computes them,
    /// with every ingredient token resolved through `tags` first: a `#tag`
    /// token can be filled by any item the tag stands for, nested tags
    /// included.
    pub fn build_with_tags(&self, items: Vec<Item>, tags: &Tags) -> (r: Result<Vec<Item>, TreeBuilderError>)
        ensures
            r is Ok,
            r matches Ok(out) ==> {
                let book = book_with_tags(tags@, self.recipes());
                let ob = obtainable(book, item_ids(items@));
                &&& forall|a: int, b: int| 0 <= a < out.len() && 0 <= b < out.len() && a != b ==> out@[a].id@ != out@[b].id@
                &&& forall|a: int| #![trigger out@[a]] 0 <= a < out.len() ==> yield_of(book, ob, out@[a].id@) is Some
                    && out@[a].quantity == at_least_one(yield_of(book, ob, out@[a].id@).unwrap())
                &&& forall|o: Seq<char>| #[trigger] yield_of(book, ob, o) is Some ==> exists|a: int|
                    0 <= a < out.len() && out@[a].id@ == o
            },
    {
        let mut raws: Vec<RawRecipe> = Vec::new();
        let mut k: usize = 0;
        while k < self.recipes.len()
            invariant
                k <= self.recipes.len(),
                book_of_raw(raws@) == book_with_tags(tags@, self.recipes@.take(k as int)),
                forall|q: int| 0 <= q < raws.len() ==> #[trigger] raws@[q].count <= 255,
            decreases self.recipes.len() - k,
        {
            let recipe = &self.recipes[k];
            proof {
                assert(self.recipes@.take(k + 1).drop_last() =~= self.recipes@.take(k as int));
                assert(self.recipes@.take(k + 1).last() == self.recipes@[k as int]);
            }
            match &recipe.result {
                Some(res) => {
                    let slots = recipe_slots_with_tags(recipe, &res.id, tags);
                    let ghost before = raws@;
                    raws.push(RawRecipe { output: res.id.clone(), count: res.count as u32, slots });
                    proof {
                        assert(book_of_raw(raws@) =~= book_of_raw(before).push(raws@[before.len() as int].entry()));
                    }
                },
                None => {},
            }
            k = k + 1;
        }
        proof {
            assert(self.recipes@.take(k as int) =~= self.recipes@);
        }
        Ok(craft_items(raws, &items))
    }

    /// Every recipe's result as an item (with the count the recipe states),
    /// grouped by item id: one group per id that some recipe makes, in order
    /// of first appearance, listing that id's results in recipe order.
    pub fn flat(&self) -> (r: Vec<(String, Vec<Item>)>)
        ensures
            forall|a: int, b: int| 0 <= a < r.len() && 0 <= b < r.len() && a != b ==> r@[a].0@ != r@[b].0@,
            forall|a: int| 0 <= a < r.len() ==> output_ids(self.recipes()).contains(#[trigger] r@[a].0@),
            forall|x: Seq<char>| #[trigger] output_ids(self.recipes()).contains(x) ==> exists|a: int| 0 <= a < r.len() && r@[a].0@ == x,
            forall|a: int| 0 <= a < r.len() ==> item_views(#[trigger] r@[a].1@) == results_for(self.recipes(), r@[a].0@),
            forall|a: int| 0 <= a < r.len() ==> (#[trigger] r@[a].1@).len() == self.recipes().filter(
                |x: Recipe| makes(x, r@[a].0@),
            ).len(),
    {
        let mut groups: Vec<(String, Vec<Item>)> = Vec::new();
        let mut k: usize = 0;
        while k < self.recipes.len()
            invariant
                k <= self.recipes.len(),
                forall|a: int, b: int| 0 <= a < groups.len() && 0 <= b < groups.len() && a != b ==> groups@[a].0@ != groups@[b].0@,
                forall|a: int| 0 <= a < groups.len() ==> output_ids(self.recipes@.take(k as int)).contains(#[trigger] groups@[a].0@),
                forall|x: Seq<char>| #[trigger] output_ids(self.recipes@.take(k as int)).contains(x) ==> exists|a: int| 0 <= a < groups.len() && groups@[a].0@ == x,
                forall|a: int| 0 <= a < groups.len() ==> item_views(#[trigger] groups@[a].1@) == results_for(self.recipes@.take(k as int), groups@[a].0@),
            decreases self.recipes.len() - k,
        {
            let ghost rs = self.recipes@;
            let ghost before = groups@;
            proof {
                lemma_output_ids_step(rs, k as int);
                assert(rs.take(k + 1).drop_last() =~= rs.take(k as int));
                assert(rs.take(k + 1).last() == rs[k as int]);
            }
            match &self.recipes[k].result {
                Some(res) => {
                    let item = Item { id: res.id.clone(), quantity: res.count };
                    let pos = group_position(&groups, &res.id);
                    match pos {
                        Some(i) => {
                            groups[i].1.push(item);
                            proof {
                                assert forall|b: int| 0 <= b < groups.len() implies item_views(#[trigger] groups@[b].1@)
                                    == results_for(rs.take(k + 1), groups@[b].0@) by {
                                    assert(item_views(before[b].1@) == results_for(rs.take(k as int), before[b].0@));
                                    if b == i {
                                        assert(item_views(groups@[b].1@) =~= item_views(before[b].1@).push((res.id@, res.count)));
                                    } else {
                                        assert(groups@[b] == before[b]);
                                    }
                                }
                                assert forall|b: int| 0 <= b < groups.len() implies output_ids(rs.take(k + 1)).contains(#[trigger] groups@[b].0@) by {
                                    assert(groups@[b].0 == before[b].0);
                                    assert(output_ids(rs.take(k as int)).contains(before[b].0@));
                                }
                                assert forall|x: Seq<char>| #[trigger] output_ids(rs.take(k + 1)).contains(x) implies exists|b: int| 0 <= b < groups.len() && groups@[b].0@ == x by {
                                    if x != res.id@ {
                                        let b = choose|b: int| 0 <= b < before.len() && before[b].0@ == x;
                                        assert(groups@[b].0 == before[b].0);
                                    } else {
                                        assert(groups@[i as int].0@ == x);
                                    }
                                }
                                assert forall|b: int, c: int| 0 <= b < groups.len() && 0 <= c < groups.len() && b != c implies groups@[b].0@ != groups@[c].0@ by {
                                    assert(groups@[b].0 == before[b].0 && groups@[c].0 == before[c].0);
                                }
                            }
                        },
                        None => {
                            let mut members: Vec<Item> = Vec::new();
                            members.push(item);
                            groups.push((res.id.clone(), members));
                            proof {
                                assert(!output_ids(rs.take(k as int)).contains(res.id@)) by {
                                    if output_ids(rs.take(k as int)).contains(res.id@) {
                                        let b = choose|b: int| 0 <= b < before.len() && before[b].0@ == res.id@;
                                    }
                                }
                                lemma_results_for_absent(rs.take(k as int), res.id@);
                                let n = before.len() as int;
                                assert forall|b: int| 0 <= b < groups.len() implies item_views(#[trigger] groups@[b].1@)
                                    == results_for(rs.take(k + 1), groups@[b].0@) by {
                                    if b < n {
                                        assert(groups@[b] == before[b]);
                                        assert(item_views(before[b].1@) == results_for(rs.take(k as int), before[b].0@));
                                    } else {
                                        assert(item_views(groups@[b].1@) =~= seq![(res.id@, res.count)]);
                                    }
                                }
                                assert forall|b: int| 0 <= b < groups.len() implies output_ids(rs.take(k + 1)).contains(#[trigger] groups@[b].0@) by {
                                    if b < n {
                                        assert(groups@[b] == before[b]);
                                        assert(output_ids(rs.take(k as int)).contains(before[b].0@));
                                    }
                                }
                                assert forall|x: Seq<char>| #[trigger] output_ids(rs.take(k + 1)).contains(x) implies exists|b: int| 0 <= b < groups.len() && groups@[b].0@ == x by {
                                    if x != res.id@ {
                                        let b = choose|b: int| 0 <= b < before.len() && before[b].0@ == x;
                                        assert(groups@[b] == before[b]);
                                    } else {
                                        assert(groups@[n].0@ == x);
                                    }
                                }
                                assert forall|b: int, c: int| 0 <= b < groups.len() && 0 <= c < groups.len() && b != c implies groups@[b].0@ != groups@[c].0@ by {
                                    if b < n && c < n {
                                        assert(groups@[b] == before[b] && groups@[c] == before[c]);
                                    } else if b < n {
                                        assert(groups@[b] == before[b]);
                                        assert(output_ids(rs.take(k as int)).contains(before[b].0@));
                                    } else if c < n {
                                        assert(groups@[c] == before[c]);
                                        assert(output_ids(rs.take(k as int)).contains(before[c].0@));
                                    }
                                }
                            }
                        },
                    }
                },
                None => {
                    proof {
                        assert forall|b: int| 0 <= b < groups.len() implies item_views(#[trigger] groups@[b].1@)
                            == results_for(rs.take(k + 1), groups@[b].0@) by {
                            assert(item_views(before[b].1@) == results_for(rs.take(k as int), before[b].0@));
                        }
                    }
                },
            }
            k = k + 1;
        }
        proof {
            assert(self.recipes@.take(k as int) =~= self.recipes@);
            assert forall|a: int| 0 <= a < groups.len() implies (#[trigger] groups@[a].1@).len() == self.recipes@.filter(
                |x: Recipe| makes(x, groups@[a].0@),
            ).len() by {
                lemma_results_for_each_recipe(self.recipes@, groups@[a].0@);
            }
        }
        groups
    }

    /// The ids of the items that some recipe makes, each once.
    pub fn items(&self) -> (r: Vec<String>)
        ensures
            distinct_views(r@),
            view_set(r@) == output_ids(self.recipes()),
    {
        let mut items: Vec<String> = Vec::new();
        let mut k: usize = 0;
        while k < self.recipes.len()
            invariant
                k <= self.recipes.len(),
                distinct_views(items@),
                view_set(items@) == output_ids(self.recipes@.take(k as int)),
            decreases self.recipes.len() - k,
        {
            let ghost before = items@;
            proof { lemma_output_ids_step(self.recipes@, k as int); }
            match &self.recipes[k].result {
                Some(res) => {
                    push_distinct(&mut items, res.id.clone());
                },
                None => {},
            }
            k = k + 1;
        }
        proof {
            assert(self.recipes@.take(k as int) =~= self.recipes@);
        }
        items
    }
}

} // verus!
