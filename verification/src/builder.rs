//! A builder that accumulates tags and recipes one call at a time, the way a
//! host program walking its own registries hands them over, and computes the
//! craftable items for one inventory after another. The prepared crafting
//! index is cached until the tags or recipes change.
use vstd::prelude::*;

use crate::recipes::crafting::{
    add_slot, at_least_one, lemma_same_shape_yields, same_shape, book_of_raw, consolidate, lemma_consolidate_step, obtainable, prepare_index, slot_sets, slots_distinct, yield_of, BookEntry,
    PreparedIndex, RawRecipe,
};
use crate::recipes::recipe::{Recipe, StringOrArray};
use crate::recipes::tags::{is_tag_ref, lemma_resolve_literal, resolution, token_options, Tags};
use crate::recipes::tree_builder::{book_of, book_with_tags, recipe_sources, recipe_tokens, source_tokens};
use crate::recipes::text::{distinct_views, view_set, views};

verus! {

broadcast use vstd::string::group_string_axioms;

/// A recipe as the host describes it: the output, the yield of one craft,
/// and one token list per ingredient slot (item ids or `#tag` references).
pub struct RecipeDraft {
    pub output: Seq<char>,
    pub yield_count: u32,
    pub slots: Seq<Seq<Seq<char>>>,
}

/// The book entry of a draft: its slots' tokens resolved through the tags,
/// then consolidated as a recipe's slots are (output removed, empty slots
/// dropped, identical slots merged).
pub open spec fn draft_entry(tags: Map<Seq<char>, Seq<Seq<char>>>, d: RecipeDraft) -> BookEntry {
    BookEntry {
        output: d.output,
        count: d.yield_count,
        slots: consolidate(Seq::new(d.slots.len(), |q: int| token_options(tags, d.slots[q])), d.output),
    }
}

/// The recipe book that committed drafts form with the given tags.
pub open spec fn book_of_drafts(tags: Map<Seq<char>, Seq<Seq<char>>>, drafts: Seq<RecipeDraft>) -> Seq<BookEntry> {
    Seq::new(drafts.len(), |k: int| draft_entry(tags, drafts[k]))
}

/// The drafts a host sends for a list of recipes: one per recipe with a
/// result, with the result's id and count and one slot per ingredient source.
pub open spec fn drafts_of(recipes: Seq<Recipe>) -> Seq<RecipeDraft>
    decreases recipes.len(),
{
    if recipes.len() == 0 {
        Seq::empty()
    } else {
        let prev = drafts_of(recipes.drop_last());
        match recipes.last().result {
            Some(res) => prev.push(
                RecipeDraft {
                    output: res.id@,
                    yield_count: at_least_one(res.count as u32),
                    slots: recipe_tokens(recipes.last()),
                },
            ),
            None => prev,
        }
    }
}

/// No ingredient token of any recipe is a tag reference.
pub open spec fn tag_free(recipes: Seq<Recipe>) -> bool {
    forall|k: int, q: int, t: int|
        0 <= k < recipes.len() && 0 <= q < recipe_tokens(recipes[k]).len() && 0 <= t < recipe_tokens(recipes[k])[q].len()
            ==> !is_tag_ref(#[trigger] recipe_tokens(recipes[k])[q][t])
}

proof fn lemma_source_options(tags: Map<Seq<char>, Seq<Seq<char>>>, s: StringOrArray)
    requires
        forall|t: int| 0 <= t < source_tokens(s).len() ==> !is_tag_ref(#[trigger] source_tokens(s)[t]),
    ensures
        token_options(tags, source_tokens(s)) == s.option_set(),
{
    let tokens = source_tokens(s);
    assert forall|x: Seq<char>| token_options(tags, tokens).contains(x) == s.option_set().contains(x) by {
        if token_options(tags, tokens).contains(x) {
            let t = choose|t: int| 0 <= t < tokens.len() && resolution(tags, tokens[t]).contains(x);
            lemma_resolve_literal(tags, tokens[t]);
            match s {
                StringOrArray::String(id) => {},
                StringOrArray::Array(ids) => {
                    assert(ids@[t]@ == x);
                },
            }
        }
        if s.option_set().contains(x) {
            match s {
                StringOrArray::String(id) => {
                    lemma_resolve_literal(tags, tokens[0]);
                    assert(resolution(tags, tokens[0]).contains(x));
                },
                StringOrArray::Array(ids) => {
                    let t = choose|t: int| 0 <= t < ids@.len() && ids@[t]@ == x;
                    assert(tokens[t] == x);
                    lemma_resolve_literal(tags, tokens[t]);
                    assert(resolution(tags, tokens[t]).contains(x));
                },
            }
        }
    }
    assert(token_options(tags, tokens) =~= s.option_set());
}

proof fn lemma_recipe_options(tags: Map<Seq<char>, Seq<Seq<char>>>, r: Recipe)
    requires
        forall|q: int, t: int| 0 <= q < recipe_tokens(r).len() && 0 <= t < recipe_tokens(r)[q].len()
            ==> !is_tag_ref(#[trigger] recipe_tokens(r)[q][t]),
    ensures
        Seq::new(recipe_tokens(r).len(), |q: int| token_options(tags, recipe_tokens(r)[q])) == recipe_sources(r),
{
    let tokens = recipe_tokens(r);
    let sources = recipe_sources(r);
    let keyed = match r.key {
        Some(kv) => kv@.len() as int,
        None => 0,
    };
    assert(tokens.len() == sources.len());
    assert forall|q: int| 0 <= q < tokens.len() implies token_options(tags, #[trigger] tokens[q]) == sources[q] by {
        if q < keyed {
            let kv = r.key.unwrap();
            assert(tokens[q] == source_tokens(kv@[q].1));
            assert(sources[q] == kv@[q].1.option_set());
            assert forall|t: int| 0 <= t < source_tokens(kv@[q].1).len() implies !is_tag_ref(#[trigger] source_tokens(kv@[q].1)[t]) by {
                assert(!is_tag_ref(tokens[q][t]));
            }
            lemma_source_options(tags, kv@[q].1);
        } else {
            let v = r.ingredients.unwrap();
            assert(tokens[q] == source_tokens(v@[q - keyed]));
            assert(sources[q] == v@[q - keyed].option_set());
            assert forall|t: int| 0 <= t < source_tokens(v@[q - keyed]).len() implies !is_tag_ref(#[trigger] source_tokens(v@[q - keyed])[t]) by {
                assert(!is_tag_ref(tokens[q][t]));
            }
            lemma_source_options(tags, v@[q - keyed]);
        }
    }
    assert(Seq::new(tokens.len(), |q: int| token_options(tags, tokens[q])) =~= sources);
}

proof fn lemma_drafts_shape(tags: Map<Seq<char>, Seq<Seq<char>>>, recipes: Seq<Recipe>)
    requires
        tag_free(recipes),
    ensures
        same_shape(book_of(recipes), book_of_drafts(tags, drafts_of(recipes))),
        forall|k: int| 0 <= k < book_of(recipes).len() ==> #[trigger] book_of_drafts(tags, drafts_of(recipes))[k].count
            == at_least_one(book_of(recipes)[k].count),
    decreases recipes.len(),
{
    if recipes.len() > 0 {
        let prev = recipes.drop_last();
        assert(tag_free(prev)) by {
            assert forall|k: int, q: int, t: int|
                0 <= k < prev.len() && 0 <= q < recipe_tokens(prev[k]).len() && 0 <= t < recipe_tokens(prev[k])[q].len()
                implies !is_tag_ref(#[trigger] recipe_tokens(prev[k])[q][t]) by {
                assert(prev[k] == recipes[k]);
            }
        }
        lemma_drafts_shape(tags, prev);
        let b1 = book_of(recipes);
        let b2 = book_of_drafts(tags, drafts_of(recipes));
        let p1 = book_of(prev);
        let p2 = book_of_drafts(tags, drafts_of(prev));
        let last = recipes.last();
        match last.result {
            Some(res) => {
                let d = drafts_of(recipes).last();
                assert(drafts_of(recipes) == drafts_of(prev).push(d));
                assert(b2 =~= p2.push(draft_entry(tags, d)));
                assert forall|q: int, t: int| 0 <= q < recipe_tokens(last).len() && 0 <= t < recipe_tokens(last)[q].len()
                    implies !is_tag_ref(#[trigger] recipe_tokens(last)[q][t]) by {
                    assert(last == recipes[recipes.len() - 1]);
                }
                lemma_recipe_options(tags, last);
                assert(b1 == p1.push(b1.last()));
                assert forall|k: int| #![trigger b1[k]] #![trigger b2[k]]
                    0 <= k < b1.len() implies b1[k].output == b2[k].output && b1[k].slots == b2[k].slots
                    && b2[k].count == at_least_one(b1[k].count) by {
                    if k < p1.len() {
                        assert(b1[k] == p1[k]);
                        assert(b2[k] == p2[k]);
                    }
                }
            },
            None => {
                assert(drafts_of(recipes) == drafts_of(prev));
            },
        }
    }
}

/// The builder, fed a list of recipes slot by slot (one slot per ingredient
/// source, holding the tokens the recipe lists), computes what the tree
/// builder computes for that list: the same obtainable items, and for each
/// item the tree builder's yield with 0 counted as 1. This holds when no
/// ingredient token is a tag reference, since the tree builder does not
/// expand tags.
pub proof fn lemma_builder_agrees_with_tree_builder(
    tags: Map<Seq<char>, Seq<Seq<char>>>,
    recipes: Seq<Recipe>,
    inventory: Set<Seq<char>>,
)
    requires
        tag_free(recipes),
    ensures
        obtainable(book_of_drafts(tags, drafts_of(recipes)), inventory) == obtainable(book_of(recipes), inventory),
        forall|o: Seq<char>| #[trigger] yield_of(
            book_of_drafts(tags, drafts_of(recipes)),
            obtainable(book_of_drafts(tags, drafts_of(recipes)), inventory),
            o,
        ) == match yield_of(book_of(recipes), obtainable(book_of(recipes), inventory), o) {
            Some(c) => Some(at_least_one(c)),
            None => None,
        },
{
    lemma_drafts_shape(tags, recipes);
    lemma_same_shape_yields(
        book_of(recipes),
        book_of_drafts(tags, drafts_of(recipes)),
        inventory,
        |c: u32| at_least_one(c),
    );
}

proof fn lemma_drafts_shape_with_tags(tags: Map<Seq<char>, Seq<Seq<char>>>, recipes: Seq<Recipe>)
    ensures
        same_shape(book_with_tags(tags, recipes), book_of_drafts(tags, drafts_of(recipes))),
        forall|k: int| 0 <= k < book_with_tags(tags, recipes).len() ==> #[trigger] book_of_drafts(tags, drafts_of(recipes))[k].count
            == at_least_one(book_with_tags(tags, recipes)[k].count),
    decreases recipes.len(),
{
    if recipes.len() > 0 {
        let prev = recipes.drop_last();
        lemma_drafts_shape_with_tags(tags, prev);
        let b1 = book_with_tags(tags, recipes);
        let b2 = book_of_drafts(tags, drafts_of(recipes));
        let p1 = book_with_tags(tags, prev);
        let p2 = book_of_drafts(tags, drafts_of(prev));
        match recipes.last().result {
            Some(res) => {
                let d = drafts_of(recipes).last();
                assert(drafts_of(recipes) == drafts_of(prev).push(d));
                assert(b2 =~= p2.push(draft_entry(tags, d)));
                assert(b1 == p1.push(b1.last()));
                assert forall|k: int| #![trigger b1[k]] #![trigger b2[k]]
                    0 <= k < b1.len() implies b1[k].output == b2[k].output && b1[k].slots == b2[k].slots
                    && b2[k].count == at_least_one(b1[k].count) by {
                    if k < p1.len() {
                        assert(b1[k] == p1[k]);
                        assert(b2[k] == p2[k]);
                    }
                }
            },
            None => {
                assert(drafts_of(recipes) == drafts_of(prev));
            },
        }
    }
}

/// The builder, fed a list of recipes slot by slot (one slot per ingredient
/// source, holding the tokens the recipe lists) and the same tags, computes
/// what `TreeBuilder::build_with_tags` computes for that list: the same
/// obtainable items, and for each item the native build's yield with 0
/// counted as 1, which is the quantity the native build reports.
pub proof fn lemma_builder_agrees_with_native_build(
    tags: Map<Seq<char>, Seq<Seq<char>>>,
    recipes: Seq<Recipe>,
    inventory: Set<Seq<char>>,
)
    ensures
        obtainable(book_of_drafts(tags, drafts_of(recipes)), inventory) == obtainable(book_with_tags(tags, recipes), inventory),
        forall|o: Seq<char>| #[trigger] yield_of(
            book_of_drafts(tags, drafts_of(recipes)),
            obtainable(book_of_drafts(tags, drafts_of(recipes)), inventory),
            o,
        ) == match yield_of(book_with_tags(tags, recipes), obtainable(book_with_tags(tags, recipes), inventory), o) {
            Some(c) => Some(at_least_one(c)),
            None => None,
        },
{
    lemma_drafts_shape_with_tags(tags, recipes);
    lemma_same_shape_yields(
        book_with_tags(tags, recipes),
        book_of_drafts(tags, drafts_of(recipes)),
        inventory,
        |c: u32| at_least_one(c),
    );
}

/// A slot-by-slot recipe protocol error.
#[derive(Debug, PartialEq, Eq, Structural)]
pub enum BuilderError {
    /// A slot was added with no recipe begun.
    SlotWithoutBegin,
    /// A recipe was committed with none begun.
    CommitWithoutBegin,
}

struct OwnedRecipe {
    output: String,
    yield_count: u32,
    slots: Vec<Vec<String>>,
}

impl OwnedRecipe {
    spec fn draft(&self) -> RecipeDraft {
        RecipeDraft {
            output: self.output@,
            yield_count: self.yield_count,
            slots: Seq::new(self.slots.len() as nat, |q: int| views(self.slots@[q]@)),
        }
    }
}

/// What a builder holds, as its host sees it: the registered tags, the
/// committed recipes in order, and the recipe in progress.
pub struct BuilderState {
    pub tags: Map<Seq<char>, Seq<Seq<char>>>,
    pub recipes: Seq<RecipeDraft>,
    pub pending: Option<RecipeDraft>,
}

/// One call a host makes on a builder, with its arguments as values.
pub enum BuilderCall {
    AddTag { tag: Seq<char>, members: Seq<Seq<char>> },
    Begin { output: Seq<char>, count: u32 },
    Slot { tokens: Seq<Seq<char>> },
    Commit,
    Build,
}

/// The state after one call: a tag registration replaces the tag's members;
/// beginning a recipe discards one in progress and records a yield of at
/// least 1; a slot or a commit with no recipe in progress changes nothing;
/// a build changes nothing.
pub open spec fn step(s: BuilderState, c: BuilderCall) -> BuilderState {
    match c {
        BuilderCall::AddTag { tag, members } => BuilderState { tags: s.tags.insert(tag, members), ..s },
        BuilderCall::Begin { output, count } => BuilderState {
            pending: Some(RecipeDraft { output, yield_count: at_least_one(count), slots: Seq::empty() }),
            ..s
        },
        BuilderCall::Slot { tokens } => match s.pending {
            Some(d) => BuilderState { pending: Some(RecipeDraft { slots: d.slots.push(tokens), ..d }), ..s },
            None => s,
        },
        BuilderCall::Commit => match s.pending {
            Some(d) => BuilderState { recipes: s.recipes.push(d), pending: None, ..s },
            None => s,
        },
        BuilderCall::Build => s,
    }
}

/// The state after a sequence of calls, in order.
pub open spec fn run_calls(s: BuilderState, calls: Seq<BuilderCall>) -> BuilderState
    decreases calls.len(),
{
    if calls.len() == 0 {
        s
    } else {
        step(run_calls(s, calls.drop_last()), calls.last())
    }
}

/// The recipe book a state's committed recipes form with its tags: what a
/// build in that state computes from.
pub open spec fn state_book(s: BuilderState) -> Seq<BookEntry> {
    book_of_drafts(s.tags, s.recipes)
}

/// A sequence of calls with its builds left out.
pub open spec fn without_builds(calls: Seq<BuilderCall>) -> Seq<BuilderCall>
    decreases calls.len(),
{
    if calls.len() == 0 {
        calls
    } else if calls.last() is Build {
        without_builds(calls.drop_last())
    } else {
        without_builds(calls.drop_last()).push(calls.last())
    }
}

/// Running two sequences one after the other is running their concatenation.
pub proof fn lemma_run_calls_append(s: BuilderState, a: Seq<BuilderCall>, b: Seq<BuilderCall>)
    ensures
        run_calls(s, a + b) == run_calls(run_calls(s, a), b),
    decreases b.len(),
{
    if b.len() == 0 {
        assert(a + b =~= a);
    } else {
        assert((a + b).drop_last() =~= a + b.drop_last());
        lemma_run_calls_append(s, a, b.drop_last());
    }
}

/// Builds interleaved anywhere in a sequence of calls leave the state as the
/// calls without them leave it, so every build sees the tags and recipes
/// registered before it, however many builds came earlier: a build on a
/// builder that built before answers as one on a fresh builder given the
/// same registrations (the cached index is never stale).
pub proof fn lemma_builds_leave_state(s: BuilderState, calls: Seq<BuilderCall>)
    ensures
        run_calls(s, calls) == run_calls(s, without_builds(calls)),
        state_book(run_calls(s, calls)) == state_book(run_calls(s, without_builds(calls))),
    decreases calls.len(),
{
    if calls.len() > 0 {
        lemma_builds_leave_state(s, calls.drop_last());
        if !(calls.last() is Build) {
            let w = without_builds(calls.drop_last()).push(calls.last());
            assert(w.drop_last() =~= without_builds(calls.drop_last()));
        }
    }
}

/// Two sequences of calls that differ only in beginning some recipes with a
/// yield of 0 where the other begins them with 1 leave the same state: a
/// yield of 0 is treated as 1.
pub proof fn lemma_zero_yield_acts_as_one(s: BuilderState, a: Seq<BuilderCall>, b: Seq<BuilderCall>)
    requires
        a.len() == b.len(),
        forall|i: int| 0 <= i < a.len() ==> #[trigger] a[i] == b[i] || (a[i] matches BuilderCall::Begin { output, count }
            && count == 0 && b[i] == (BuilderCall::Begin { output, count: 1 })),
    ensures
        run_calls(s, a) == run_calls(s, b),
    decreases a.len(),
{
    if a.len() > 0 {
        lemma_zero_yield_acts_as_one(s, a.drop_last(), b.drop_last());
        assert(a.last() == a[a.len() - 1]);
    }
}

/// Two states that may differ only in the members of tag `t`.
pub open spec fn agree_except_tag(x: BuilderState, y: BuilderState, t: Seq<char>) -> bool {
    &&& x.tags.remove(t) == y.tags.remove(t)
    &&& x.recipes == y.recipes
    &&& x.pending == y.pending
}

proof fn lemma_agree_except_tag(x: BuilderState, y: BuilderState, t: Seq<char>, calls: Seq<BuilderCall>)
    requires
        agree_except_tag(x, y, t),
    ensures
        agree_except_tag(run_calls(x, calls), run_calls(y, calls), t),
    decreases calls.len(),
{
    if calls.len() > 0 {
        lemma_agree_except_tag(x, y, t, calls.drop_last());
        let px = run_calls(x, calls.drop_last());
        let py = run_calls(y, calls.drop_last());
        match calls.last() {
            BuilderCall::AddTag { tag, members } => {
                if tag == t {
                    assert(px.tags.insert(tag, members).remove(t) =~= px.tags.remove(t));
                    assert(py.tags.insert(tag, members).remove(t) =~= py.tags.remove(t));
                } else {
                    assert(px.tags.insert(tag, members).remove(t) =~= px.tags.remove(t).insert(tag, members));
                    assert(py.tags.insert(tag, members).remove(t) =~= py.tags.remove(t).insert(tag, members));
                }
            },
            _ => {},
        }
    }
}

/// Registering tag `t` again replaces its members: the calls leave the same
/// state as they do without the earlier registration.
pub proof fn lemma_tag_reregistration_replaces(
    s: BuilderState,
    before: Seq<BuilderCall>,
    t: Seq<char>,
    first: Seq<Seq<char>>,
    between: Seq<BuilderCall>,
    second: Seq<Seq<char>>,
    after: Seq<BuilderCall>,
)
    ensures
        run_calls(
            s,
            before + seq![BuilderCall::AddTag { tag: t, members: first }] + between + seq![
                BuilderCall::AddTag { tag: t, members: second },
            ] + after,
        ) == run_calls(s, before + between + seq![BuilderCall::AddTag { tag: t, members: second }] + after),
{
    let a1 = seq![BuilderCall::AddTag { tag: t, members: first }];
    let a2 = seq![BuilderCall::AddTag { tag: t, members: second }];
    let p = run_calls(s, before);
    let x = run_calls(s, before + a1);
    let bx = run_calls(x, between);
    let by = run_calls(p, between);
    assert(a1.drop_last() =~= Seq::<BuilderCall>::empty());
    assert(a2.drop_last() =~= Seq::<BuilderCall>::empty());
    assert(run_calls(p, a1.drop_last()) == p);
    assert(run_calls(bx, a2.drop_last()) == bx);
    assert(run_calls(by, a2.drop_last()) == by);
    assert(run_calls(p, a1) == step(p, a1.last()));
    assert(run_calls(bx, a2) == step(bx, a2.last()));
    assert(run_calls(by, a2) == step(by, a2.last()));
    lemma_run_calls_append(s, before, a1);
    assert(x == step(p, a1.last()));
    assert(x.tags.remove(t) =~= p.tags.remove(t));
    lemma_agree_except_tag(x, p, t, between);
    assert(step(bx, a2.last()).tags =~= step(by, a2.last()).tags) by {
        assert forall|k: Seq<char>| #[trigger] step(bx, a2.last()).tags.contains_key(k) == step(by, a2.last()).tags.contains_key(k)
            && (step(bx, a2.last()).tags.contains_key(k) ==> step(bx, a2.last()).tags[k] == step(by, a2.last()).tags[k]) by {
            if k != t {
                assert(bx.tags.remove(t).contains_key(k) == bx.tags.contains_key(k));
                assert(by.tags.remove(t).contains_key(k) == by.tags.contains_key(k));
                if bx.tags.contains_key(k) {
                    assert(bx.tags.remove(t)[k] == bx.tags[k]);
                    assert(by.tags.remove(t)[k] == by.tags[k]);
                }
            }
        }
    }
    let y = step(bx, a2.last());
    assert(y == step(by, a2.last()));
    lemma_run_calls_append(s, before + a1, between);
    lemma_run_calls_append(s, before + a1 + between, a2);
    lemma_run_calls_append(s, before + a1 + between + a2, after);
    lemma_run_calls_append(s, before, between);
    lemma_run_calls_append(s, before + between, a2);
    lemma_run_calls_append(s, before + between + a2, after);
    assert(run_calls(s, before + a1 + between + a2) == y);
    assert(run_calls(s, before + between + a2) == y);
}

/// Accumulates tags and recipes from the host, with the prepared crafting
/// index cached across builds.
pub struct Ccmk4Builder {
    tags: Tags,
    recipes: Vec<OwnedRecipe>,
    pending: Option<OwnedRecipe>,
    prepared: Option<PreparedIndex>,
}

impl Ccmk4Builder {
    /// The registered tags.
    pub closed spec fn tags_view(&self) -> Map<Seq<char>, Seq<Seq<char>>> {
        self.tags@
    }

    /// The committed recipes, in order.
    pub closed spec fn recipes_view(&self) -> Seq<RecipeDraft> {
        Seq::new(self.recipes.len() as nat, |k: int| self.recipes@[k].draft())
    }

    /// The recipe in progress, if any.
    pub closed spec fn pending_view(&self) -> Option<RecipeDraft> {
        match self.pending {
            Some(p) => Some(p.draft()),
            None => None,
        }
    }

    /// Everything the host has registered, as values.
    pub open spec fn state(&self) -> BuilderState {
        BuilderState { tags: self.tags_view(), recipes: self.recipes_view(), pending: self.pending_view() }
    }

    /// The recipe book that the committed recipes form with the tags.
    pub open spec fn book(&self) -> Seq<BookEntry> {
        book_of_drafts(self.tags_view(), self.recipes_view())
    }

    /// The cached index, when present, indexes the current book.
    #[verifier::type_invariant]
    closed spec fn wf(&self) -> bool {
        self.prepared matches Some(index) ==> index.book() == self.book()
    }

    /// Creates an empty builder.
    pub fn new() -> (r: Self)
        ensures
            r.tags_view() == Map::<Seq<char>, Seq<Seq<char>>>::empty(),
            r.recipes_view() == Seq::<RecipeDraft>::empty(),
            r.pending_view() is None,
    {
        let r = Ccmk4Builder { tags: Tags::new(), recipes: Vec::new(), pending: None, prepared: None };
        assert(r.recipes_view() =~= Seq::<RecipeDraft>::empty());
        r
    }

    /// Registers one item tag: `tag_id` is the full id (e.g. `minecraft:planks`),
    /// `members` its tokens, each an item id or a nested `#tag` reference.
    /// Re-registering a tag replaces its members.
    pub fn add_tag(&mut self, tag_id: String, members: Vec<String>)
        ensures
            final(self).tags_view() == old(self).tags_view().insert(tag_id@, views(members@)),
            final(self).state() == step(old(self).state(), (BuilderCall::AddTag { tag: tag_id@, members: views(members@) })),
            final(self).recipes_view() == old(self).recipes_view(),
            final(self).pending_view() == old(self).pending_view(),
    {
        self.prepared = None;
        let mut tags = Tags::new();
        std::mem::swap(&mut tags, &mut self.tags);
        tags.add(tag_id, members);
        self.tags = tags;
    }

    /// Starts a new recipe with its output item id and per-craft yield (a yield
    /// of 0 is treated as 1). Beginning a recipe while another is in progress
    /// discards the unfinished one.
    pub fn recipe_begin(&mut self, output_id: String, output_count: u32)
        ensures
            final(self).pending_view() == Some(
                RecipeDraft {
                    output: output_id@,
                    yield_count: at_least_one(output_count),
                    slots: Seq::empty(),
                },
            ),
            final(self).state() == step(old(self).state(), (BuilderCall::Begin { output: output_id@, count: output_count })),
            final(self).tags_view() == old(self).tags_view(),
            final(self).recipes_view() == old(self).recipes_view(),
    {
        proof {
            use_type_invariant(&*self);
        }
        let yield_count: u32 = if output_count == 0 {
            1
        } else {
            output_count
        };
        self.pending = Some(OwnedRecipe { output: output_id, yield_count, slots: Vec::new() });
        proof {
            let d = self.pending.unwrap().draft();
            assert(d.slots =~= Seq::<Seq<Seq<char>>>::empty());
        }
    }

    /// Adds one ingredient slot to the recipe in progress: `tokens` are the
    /// slot's interchangeable options (item ids or `#tag` references). Fails,
    /// changing nothing, when no recipe is in progress.
    pub fn recipe_slot(&mut self, tokens: Vec<String>) -> (r: Result<(), BuilderError>)
        ensures
            final(self).state() == step(old(self).state(), (BuilderCall::Slot { tokens: views(tokens@) })),
            final(self).tags_view() == old(self).tags_view(),
            final(self).recipes_view() == old(self).recipes_view(),
            old(self).pending_view() is None ==> r == Err::<(), BuilderError>(BuilderError::SlotWithoutBegin)
                && final(self).pending_view() is None,
            old(self).pending_view() matches Some(d) ==> r is Ok && final(self).pending_view() == Some(
                RecipeDraft { slots: d.slots.push(views(tokens@)), ..d },
            ),
    {
        proof {
            use_type_invariant(&*self);
        }
        let mut pending: Option<OwnedRecipe> = None;
        std::mem::swap(&mut pending, &mut self.pending);
        match pending {
            None => Err(BuilderError::SlotWithoutBegin),
            Some(mut pending) => {
                let ghost before = pending.draft();
                pending.slots.push(tokens);
                proof {
                    assert(pending.draft().slots =~= before.slots.push(views(tokens@)));
                }
                self.pending = Some(pending);
                Ok(())
            },
        }
    }

    /// Finishes the recipe in progress and registers it. Fails, changing
    /// nothing, when no recipe is in progress.
    pub fn recipe_commit(&mut self) -> (r: Result<(), BuilderError>)
        ensures
            final(self).state() == step(old(self).state(), BuilderCall::Commit),
            final(self).tags_view() == old(self).tags_view(),
            final(self).pending_view() is None,
            old(self).pending_view() is None ==> r == Err::<(), BuilderError>(BuilderError::CommitWithoutBegin)
                && final(self).recipes_view() == old(self).recipes_view(),
            old(self).pending_view() matches Some(d) ==> r is Ok && final(self).recipes_view() == old(
                self,
            ).recipes_view().push(d),
    {
        proof {
            use_type_invariant(&*self);
        }
        let mut pending: Option<OwnedRecipe> = None;
        std::mem::swap(&mut pending, &mut self.pending);
        match pending {
            None => Err(BuilderError::CommitWithoutBegin),
            Some(recipe) => {
                let ghost before = self.recipes_view();
                let ghost d = recipe.draft();
                self.prepared = None;
                let mut recipes: Vec<OwnedRecipe> = Vec::new();
                std::mem::swap(&mut recipes, &mut self.recipes);
                recipes.push(recipe);
                self.recipes = recipes;
                proof {
                    assert(self.recipes_view() =~= before.push(d));
                }
                Ok(())
            },
        }
    }

    /// The committed recipes with their slots resolved and consolidated.
    fn raw_recipes(&self) -> (r: Vec<RawRecipe>)
        ensures
            book_of_raw(r@) == self.book(),
    {
        let ghost tags = self.tags_view();
        let mut r: Vec<RawRecipe> = Vec::new();
        let mut k: usize = 0;
        while k < self.recipes.len()
            invariant
                tags == self.tags_view(),
                k <= self.recipes.len(),
                r.len() == k,
                forall|a: int| 0 <= a < k ==> #[trigger] r@[a].entry() == draft_entry(tags, self.recipes@[a].draft()),
            decreases self.recipes.len() - k,
        {
            let recipe = &self.recipes[k];
            let ghost d = recipe.draft();
            let ghost sources = Seq::new(d.slots.len(), |q: int| token_options(tags, d.slots[q]));
            let mut slots: Vec<Vec<String>> = Vec::new();
            let mut q: usize = 0;
            proof {
                assert(slot_sets(slots@) =~= consolidate(sources.take(0), d.output));
            }
            while q < recipe.slots.len()
                invariant
                    tags == self.tags_view(),
                    recipe == &self.recipes@[k as int],
                    d == recipe.draft(),
                    sources == Seq::new(d.slots.len(), |q: int| token_options(tags, d.slots[q])),
                    q <= recipe.slots.len(),
                    slots_distinct(slots@),
                    slot_sets(slots@) == consolidate(sources.take(q as int), d.output),
                decreases recipe.slots.len() - q,
            {
                let options = self.tags.resolve_all(&recipe.slots[q]);
                proof {
                    assert(sources[q as int] == token_options(tags, views(recipe.slots@[q as int]@)));
                    lemma_consolidate_step(sources, d.output, q as int);
                }
                add_slot(&mut slots, &options, &recipe.output);
                q = q + 1;
            }
            proof {
                assert(sources.take(q as int) =~= sources);
            }
            let ghost before = r@;
            r.push(RawRecipe { output: recipe.output.clone(), count: recipe.yield_count, slots });
            proof {
                assert forall|a: int| 0 <= a < k + 1 implies #[trigger] r@[a].entry() == draft_entry(tags, self.recipes@[a].draft()) by {
                    if a < k {
                        assert(r@[a] == before[a]);
                    }
                }
            }
            k = k + 1;
        }
        assert(book_of_raw(r@) =~= self.book());
        r
    }

    /// Computes the craftable items for one inventory (its item ids): each
    /// output obtainable from the inventory once, with the yield of its first
    /// recipe craftable from obtainable items. The prepared index is built on
    /// the first call after the tags or recipes change and reused after that.
    pub fn build(&mut self, inventory: &Vec<String>) -> (r: Vec<(String, u32)>)
        ensures
            final(self).state() == step(old(self).state(), BuilderCall::Build),
            old(self).book() == state_book(old(self).state()),
            final(self).tags_view() == old(self).tags_view(),
            final(self).recipes_view() == old(self).recipes_view(),
            final(self).pending_view() == old(self).pending_view(),
            forall|a: int, b: int| 0 <= a < r.len() && 0 <= b < r.len() && a != b ==> r@[a].0@ != r@[b].0@,
            forall|a: int| 0 <= a < r.len() ==> yield_of(
                old(self).book(),
                obtainable(old(self).book(), view_set(inventory@)),
                #[trigger] r@[a].0@,
            ) == Some(r@[a].1),
            forall|o: Seq<char>| #[trigger] yield_of(old(self).book(), obtainable(old(self).book(), view_set(inventory@)), o) is Some
                ==> exists|a: int| 0 <= a < r.len() && r@[a].0@ == o,
    {
        if self.prepared.is_none() {
            let raws = self.raw_recipes();
            let index = prepare_index(raws);
            self.prepared = Some(index);
        }
        proof {
            use_type_invariant(&*self);
        }
        match &self.prepared {
            Some(index) => index.run(inventory),
            None => {
                proof { assert(false); }
                Vec::new()
            },
        }
    }
}

} // verus!
