//! The crafting engine: ingredient slots, the recipe book they form, and the
//! set of items obtainable from an inventory.
use std::collections::VecDeque;
use vstd::prelude::*;

use crate::recipes::text::{
    contains_index, count_false, lemma_count_false_set, contains_str, distinct_options, distinct_views, lemma_push_distinct, position_of, push_distinct, view_set, views,
};

verus! {

broadcast use vstd::string::group_string_axioms;

/// The sets of options that a list of slots offers.
pub open spec fn slot_sets(v: Seq<Vec<String>>) -> Seq<Set<Seq<char>>> {
    Seq::new(v.len(), |i: int| view_set(v[i]@))
}

/// Every slot of the list names each of its options once.
pub open spec fn slots_distinct(v: Seq<Vec<String>>) -> bool {
    forall|i: int| 0 <= i < v.len() ==> distinct_views(#[trigger] v[i]@)
}

/// The slot that one ingredient source adds to the slots gathered so far: its
/// options without the recipe's own output; nothing when no option is left or
/// when an identical slot is already present.
pub open spec fn with_slot(
    prev: Seq<Set<Seq<char>>>,
    options: Set<Seq<char>>,
    output: Seq<char>,
) -> Seq<Set<Seq<char>>> {
    let s = options.remove(output);
    if s == Set::<Seq<char>>::empty() || prev.contains(s) {
        prev
    } else {
        prev.push(s)
    }
}

/// The slots of a recipe whose ingredient sources offer the given option sets:
/// each source in order, with the output removed, empty slots dropped and
/// identical slots consolidated.
pub open spec fn consolidate(sources: Seq<Set<Seq<char>>>, output: Seq<char>) -> Seq<Set<Seq<char>>>
    decreases sources.len(),
{
    if sources.len() == 0 {
        Seq::empty()
    } else {
        with_slot(consolidate(sources.drop_last(), output), sources.last(), output)
    }
}

/// Consolidating one more source adds that source's slot, if any.
pub proof fn lemma_consolidate_step(sources: Seq<Set<Seq<char>>>, output: Seq<char>, i: int)
    requires
        0 <= i < sources.len(),
    ensures
        consolidate(sources.take(i + 1), output) == with_slot(consolidate(sources.take(i), output), sources[i], output),
{
    assert(sources.take(i + 1).drop_last() =~= sources.take(i));
}

/// Whether two lists name the same ids.
pub fn same_members(a: &Vec<String>, b: &Vec<String>) -> (r: bool)
    ensures
        r == (view_set(a@) == view_set(b@)),
{
    let mut i: usize = 0;
    while i < a.len()
        invariant
            i <= a.len(),
            forall|j: int| 0 <= j < i ==> view_set(b@).contains(#[trigger] a@[j]@),
        decreases a.len() - i,
    {
        if !contains_str(b, &a[i]) {
            assert(view_set(a@).contains(a@[i as int]@));
            return false;
        }
        i = i + 1;
    }
    let mut i: usize = 0;
    while i < b.len()
        invariant
            i <= b.len(),
            forall|j: int| 0 <= j < a.len() ==> view_set(b@).contains(#[trigger] a@[j]@),
            forall|j: int| 0 <= j < i ==> view_set(a@).contains(#[trigger] b@[j]@),
        decreases b.len() - i,
    {
        if !contains_str(a, &b[i]) {
            assert(view_set(b@).contains(b@[i as int]@));
            return false;
        }
        i = i + 1;
    }
    assert(view_set(a@) =~= view_set(b@)) by {
        assert forall|x: Seq<char>| view_set(a@).contains(x) implies view_set(b@).contains(x) by {
            let j = choose|j: int| 0 <= j < a@.len() && a@[j]@ == x;
            assert(view_set(b@).contains(a@[j]@));
        }
        assert forall|x: Seq<char>| view_set(b@).contains(x) implies view_set(a@).contains(x) by {
            let j = choose|j: int| 0 <= j < b@.len() && b@[j]@ == x;
            assert(view_set(a@).contains(b@[j]@));
        }
    }
    true
}

/// The same slots, each naming each of its options once.
pub fn distinct_slots(slots: &Vec<Vec<String>>) -> (r: Vec<Vec<String>>)
    ensures
        slots_distinct(r@),
        slot_sets(r@) == slot_sets(slots@),
{
    let mut r: Vec<Vec<String>> = Vec::new();
    let mut i: usize = 0;
    while i < slots.len()
        invariant
            i <= slots.len(),
            r.len() == i,
            slots_distinct(r@),
            forall|q: int| 0 <= q < i ==> view_set(#[trigger] r@[q]@) == view_set(slots@[q]@),
        decreases slots.len() - i,
    {
        let ghost before = r@;
        r.push(distinct_options(&slots[i]));
        proof {
            assert forall|q: int| 0 <= q < i + 1 implies view_set(#[trigger] r@[q]@) == view_set(slots@[q]@) by {
                if q < i {
                    assert(r@[q] == before[q]);
                }
            }
            assert forall|q: int| 0 <= q < r.len() implies distinct_views(#[trigger] r@[q]@) by {
                if q < i {
                    assert(r@[q] == before[q]);
                }
            }
        }
        i = i + 1;
    }
    assert(slot_sets(r@) =~= slot_sets(slots@));
    r
}

/// Adds the slot that one ingredient source offers (see `with_slot`).
pub fn add_slot(slots: &mut Vec<Vec<String>>, options: &Vec<String>, output: &String)
    requires
        slots_distinct(old(slots)@),
    ensures
        slots_distinct(final(slots)@),
        slot_sets(final(slots)@) == with_slot(slot_sets(old(slots)@), view_set(options@), output@),
{
    let ghost want = view_set(options@).remove(output@);
    let mut kept: Vec<String> = Vec::new();
    let mut i: usize = 0;
    while i < options.len()
        invariant
            i <= options.len(),
            distinct_views(kept@),
            forall|x: Seq<char>| view_set(kept@).contains(x) <==> (x != output@ && exists|j: int|
                0 <= j < i && options@[j]@ == x),
        decreases options.len() - i,
    {
        let ghost before = kept@;
        if options[i] != *output {
            push_distinct(&mut kept, options[i].clone());
        }
        proof {
            assert forall|x: Seq<char>| view_set(kept@).contains(x) <==> (x != output@ && exists|j: int|
                0 <= j < i + 1 && options@[j]@ == x) by {
                if x != output@ && exists|j: int| 0 <= j < i + 1 && options@[j]@ == x {
                    let j = choose|j: int| 0 <= j < i + 1 && options@[j]@ == x;
                    if j < i {
                        assert(view_set(before).contains(x));
                    }
                }
            }
        }
        i = i + 1;
    }
    assert(view_set(kept@) =~= want) by {
        assert forall|x: Seq<char>| view_set(options@).contains(x) && x != output@ implies view_set(kept@).contains(x) by {
            let j = choose|j: int| 0 <= j < options@.len() && options@[j]@ == x;
        }
    }
    if kept.len() == 0 {
        assert(want =~= Set::<Seq<char>>::empty()) by {
            assert forall|x: Seq<char>| !view_set(kept@).contains(x) by {}
        }
        return;
    }
    assert(want != Set::<Seq<char>>::empty()) by {
        assert(view_set(kept@).contains(kept@[0]@));
    }
    let ghost old_slots = slots@;
    let mut j: usize = 0;
    while j < slots.len()
        invariant
            j <= slots.len(),
            slots@ == old_slots,
            old_slots == old(slots)@,
            slots_distinct(old_slots),
            want == view_set(options@).remove(output@),
            view_set(kept@) == want,
            forall|q: int| 0 <= q < j ==> view_set(#[trigger] slots@[q]@) != want,
        decreases slots.len() - j,
    {
        if same_members(&slots[j], &kept) {
            assert(slot_sets(old_slots)[j as int] == want);
            assert(slot_sets(old_slots).contains(want));
            return;
        }
        j = j + 1;
    }
    assert(!slot_sets(old_slots).contains(want)) by {
        if slot_sets(old_slots).contains(want) {
            let q = choose|q: int| 0 <= q < slot_sets(old_slots).len() && slot_sets(old_slots)[q] == want;
            assert(view_set(slots@[q]@) != want);
        }
    }
    slots.push(kept);
    assert(slot_sets(slots@) =~= slot_sets(old_slots).push(want));
}


/// One recipe of a recipe book: the item it makes, how many one craft
/// yields, and its ingredient slots, each the set of interchangeable options.
pub struct BookEntry {
    pub output: Seq<char>,
    pub count: u32,
    pub slots: Seq<Set<Seq<char>>>,
}

/// Some recipe of the book makes `x`.
pub open spec fn is_output(book: Seq<BookEntry>, x: Seq<char>) -> bool {
    exists|k: int| 0 <= k < book.len() && #[trigger] book[k].output == x
}

/// An option is available when no recipe makes it (a raw material, taken to
/// be at hand) or when it is among the items `have`.
pub open spec fn available(book: Seq<BookEntry>, have: Set<Seq<char>>, x: Seq<char>) -> bool {
    !is_output(book, x) || have.contains(x)
}

/// Some option of the slot is available.
pub open spec fn slot_open(book: Seq<BookEntry>, have: Set<Seq<char>>, slot: Set<Seq<char>>) -> bool {
    exists|x: Seq<char>| slot.contains(x) && available(book, have, x)
}

/// Every slot of the recipe can be filled.
pub open spec fn craftable(book: Seq<BookEntry>, have: Set<Seq<char>>, e: BookEntry) -> bool {
    forall|j: int| 0 <= j < e.slots.len() ==> slot_open(book, have, #[trigger] e.slots[j])
}

/// Whatever a craftable recipe makes is already in `have`.
pub open spec fn closed(book: Seq<BookEntry>, have: Set<Seq<char>>) -> bool {
    forall|k: int| 0 <= k < book.len() && craftable(book, have, #[trigger] book[k]) ==> have.contains(book[k].output)
}

/// The items obtainable from an inventory: those in every set that holds the
/// inventory and is closed under crafting, that is, the inventory together
/// with everything that can be crafted from it, step by step.
pub open spec fn obtainable(book: Seq<BookEntry>, inventory: Set<Seq<char>>) -> Set<Seq<char>> {
    Set::new(|x: Seq<char>| forall|s: Set<Seq<char>>| inventory.subset_of(s) && #[trigger] closed(book, s) ==> s.contains(x))
}

/// The yield of the first of the first `n` recipes of the book that makes `o`
/// and is craftable from `have`.
pub open spec fn first_yield(book: Seq<BookEntry>, have: Set<Seq<char>>, o: Seq<char>, n: int) -> Option<u32>
    decreases n,
{
    if n <= 0 {
        None
    } else {
        match first_yield(book, have, o, n - 1) {
            Some(c) => Some(c),
            None => if book[n - 1].output == o && craftable(book, have, book[n - 1]) {
                Some(book[n - 1].count)
            } else {
                None
            },
        }
    }
}

/// How many of `o` one craft yields, by the first recipe for `o` (in book
/// order) that is craftable from `have`; `None` when no recipe for `o` is.
pub open spec fn yield_of(book: Seq<BookEntry>, have: Set<Seq<char>>, o: Seq<char>) -> Option<u32> {
    first_yield(book, have, o, book.len() as int)
}

/// `have` holds every output that `less` holds.
pub open spec fn outputs_within(book: Seq<BookEntry>, less: Set<Seq<char>>, have: Set<Seq<char>>) -> bool {
    forall|x: Seq<char>| is_output(book, x) && #[trigger] less.contains(x) ==> have.contains(x)
}

/// A recipe craftable from some outputs stays craftable from more.
pub proof fn lemma_craftable_monotone(
    book: Seq<BookEntry>,
    less: Set<Seq<char>>,
    more: Set<Seq<char>>,
    e: BookEntry,
)
    requires
        outputs_within(book, less, more),
        craftable(book, less, e),
    ensures
        craftable(book, more, e),
{
    assert forall|j: int| 0 <= j < e.slots.len() implies slot_open(book, more, #[trigger] e.slots[j]) by {
        let x = choose|x: Seq<char>| e.slots[j].contains(x) && available(book, less, x);
        assert(available(book, more, x));
    }
}

/// A reported yield is that of a craftable recipe for the item.
pub proof fn lemma_first_yield_some(book: Seq<BookEntry>, have: Set<Seq<char>>, o: Seq<char>, n: int)
    requires
        first_yield(book, have, o, n) is Some,
    ensures
        exists|k: int|
            0 <= k < n && book[k].output == o && craftable(book, have, book[k]) && book[k].count
                == first_yield(book, have, o, n).unwrap(),
    decreases n,
{
    if first_yield(book, have, o, n - 1) is Some {
        lemma_first_yield_some(book, have, o, n - 1);
    } else {
        assert(book[n - 1].output == o);
    }
}

/// With no yield reported, no recipe for the item is craftable.
pub proof fn lemma_first_yield_none(book: Seq<BookEntry>, have: Set<Seq<char>>, o: Seq<char>, n: int, k: int)
    requires
        first_yield(book, have, o, n) is None,
        0 <= k < n,
        book[k].output == o,
    ensures
        !craftable(book, have, book[k]),
    decreases n,
{
    if k < n - 1 {
        lemma_first_yield_none(book, have, o, n - 1, k);
    }
}

/// An item with a craftable recipe keeps one when more outputs are at hand.
pub proof fn lemma_first_yield_monotone(
    book: Seq<BookEntry>,
    less: Set<Seq<char>>,
    more: Set<Seq<char>>,
    o: Seq<char>,
    n: int,
)
    requires
        outputs_within(book, less, more),
        first_yield(book, less, o, n) is Some,
    ensures
        first_yield(book, more, o, n) is Some,
    decreases n,
{
    if first_yield(book, less, o, n - 1) is Some {
        lemma_first_yield_monotone(book, less, more, o, n - 1);
    } else {
        lemma_craftable_monotone(book, less, more, book[n - 1]);
    }
}

/// Two sets that hold the same outputs make the same recipes craftable.
pub proof fn lemma_first_yield_congruent(
    book: Seq<BookEntry>,
    h1: Set<Seq<char>>,
    h2: Set<Seq<char>>,
    o: Seq<char>,
    n: int,
)
    requires
        outputs_within(book, h1, h2),
        outputs_within(book, h2, h1),
    ensures
        first_yield(book, h1, o, n) == first_yield(book, h2, o, n),
        forall|e: BookEntry| craftable(book, h1, e) == craftable(book, h2, e),
    decreases n,
{
    assert forall|e: BookEntry| craftable(book, h1, e) == craftable(book, h2, e) by {
        if craftable(book, h1, e) {
            lemma_craftable_monotone(book, h1, h2, e);
        }
        if craftable(book, h2, e) {
            lemma_craftable_monotone(book, h2, h1, e);
        }
    }
    if n > 0 {
        lemma_first_yield_congruent(book, h1, h2, o, n - 1);
    }
}

/// The inventory is obtainable.
pub proof fn lemma_inventory_obtainable(book: Seq<BookEntry>, inventory: Set<Seq<char>>)
    ensures
        inventory.subset_of(obtainable(book, inventory)),
{
}

/// A recipe craftable from obtainable items makes an obtainable item.
pub proof fn lemma_obtainable_closed(book: Seq<BookEntry>, inventory: Set<Seq<char>>, have: Set<Seq<char>>, k: int)
    requires
        0 <= k < book.len(),
        outputs_within(book, have, obtainable(book, inventory)),
        craftable(book, have, book[k]),
    ensures
        obtainable(book, inventory).contains(book[k].output),
{
    let ob = obtainable(book, inventory);
    assert forall|s: Set<Seq<char>>| inventory.subset_of(s) && #[trigger] closed(book, s) implies s.contains(book[k].output) by {
        assert(outputs_within(book, have, s));
        lemma_craftable_monotone(book, have, s, book[k]);
    }
}


/// The slots of a recipe never offer the recipe's own output, are never
/// empty, and are pairwise distinct; and every source that offers something
/// besides the output is represented by a slot.
pub proof fn lemma_consolidate_shape(sources: Seq<Set<Seq<char>>>, output: Seq<char>)
    ensures
        forall|i: int| 0 <= i < consolidate(sources, output).len() ==> !(#[trigger] consolidate(sources, output)[i]).contains(output),
        forall|i: int| 0 <= i < consolidate(sources, output).len() ==> #[trigger] consolidate(sources, output)[i] != Set::<Seq<char>>::empty(),
        forall|i: int, j: int|
            0 <= i < consolidate(sources, output).len() && 0 <= j < consolidate(sources, output).len() && i != j
                ==> consolidate(sources, output)[i] != consolidate(sources, output)[j],
        forall|q: int| 0 <= q < sources.len() && #[trigger] sources[q].remove(output) != Set::<Seq<char>>::empty()
            ==> consolidate(sources, output).contains(sources[q].remove(output)),
    decreases sources.len(),
{
    if sources.len() > 0 {
        let prev_sources = sources.drop_last();
        lemma_consolidate_shape(prev_sources, output);
        let prev = consolidate(prev_sources, output);
        let c = consolidate(sources, output);
        let s = sources.last().remove(output);
        if s == Set::<Seq<char>>::empty() || prev.contains(s) {
            assert(c == prev);
        } else {
            assert(c == prev.push(s));
            assert(!s.contains(output));
            assert forall|i: int, j: int| 0 <= i < c.len() && 0 <= j < c.len() && i != j implies c[i] != c[j] by {
                if i < prev.len() && j < prev.len() {
                } else if i < prev.len() {
                    assert(prev.contains(c[i]));
                } else {
                    assert(prev.contains(c[j]));
                }
            }
        }
        assert forall|q: int| 0 <= q < sources.len() && #[trigger] sources[q].remove(output) != Set::<Seq<char>>::empty()
            implies c.contains(sources[q].remove(output)) by {
            if q < sources.len() - 1 {
                assert(prev_sources[q] == sources[q]);
                assert(prev.contains(sources[q].remove(output)));
                let i = choose|i: int| 0 <= i < prev.len() && prev[i] == sources[q].remove(output);
                assert(c[i] == prev[i]);
            } else if !prev.contains(s) {
                assert(c[c.len() - 1] == s);
            }
        }
    }
}

/// Whatever can be crafted from obtainable items is itself obtainable.
pub proof fn lemma_obtainable_is_closed(book: Seq<BookEntry>, inventory: Set<Seq<char>>)
    ensures
        closed(book, obtainable(book, inventory)),
{
    let ob = obtainable(book, inventory);
    assert forall|k: int| 0 <= k < book.len() && craftable(book, ob, #[trigger] book[k]) implies ob.contains(book[k].output) by {
        lemma_obtainable_closed(book, inventory, ob, k);
    }
}

/// The obtainable items are the least set that holds the inventory and is
/// closed under crafting: they lie within every such set.
pub proof fn lemma_obtainable_least(book: Seq<BookEntry>, inventory: Set<Seq<char>>, s: Set<Seq<char>>)
    requires
        inventory.subset_of(s),
        closed(book, s),
    ensures
        obtainable(book, inventory).subset_of(s),
{
}

/// More inventory never makes fewer items obtainable.
pub proof fn lemma_obtainable_monotone(book: Seq<BookEntry>, less: Set<Seq<char>>, more: Set<Seq<char>>)
    requires
        less.subset_of(more),
    ensures
        obtainable(book, less).subset_of(obtainable(book, more)),
{
}

/// More inventory never makes fewer items craftable: an item with a
/// craftable recipe stays craftable when the inventory grows.
pub proof fn lemma_craftable_monotone_in_inventory(
    book: Seq<BookEntry>,
    less: Set<Seq<char>>,
    more: Set<Seq<char>>,
    o: Seq<char>,
)
    requires
        less.subset_of(more),
        yield_of(book, obtainable(book, less), o) is Some,
    ensures
        yield_of(book, obtainable(book, more), o) is Some,
{
    lemma_obtainable_monotone(book, less, more);
    lemma_first_yield_monotone(book, obtainable(book, less), obtainable(book, more), o, book.len() as int);
}

/// Only items that some recipe makes are ever reported craftable, with the
/// yield of one of their recipes.
pub proof fn lemma_yield_from_recipe(book: Seq<BookEntry>, have: Set<Seq<char>>, o: Seq<char>)
    requires
        yield_of(book, have, o) is Some,
    ensures
        is_output(book, o),
        exists|k: int| 0 <= k < book.len() && book[k].output == o && book[k].count == yield_of(book, have, o).unwrap(),
{
    lemma_first_yield_some(book, have, o, book.len() as int);
}

/// Two results that both list, each once, every craftable item with its yield
/// (as the crafting functions promise) agree entry for entry: building twice
/// from the same book and inventory gives the same items and yields.
pub proof fn lemma_results_agree(
    book: Seq<BookEntry>,
    inventory: Set<Seq<char>>,
    r1: Seq<(Seq<char>, u32)>,
    r2: Seq<(Seq<char>, u32)>,
)
    requires
        forall|a: int| 0 <= a < r1.len() ==> yield_of(book, obtainable(book, inventory), #[trigger] r1[a].0) == Some(r1[a].1),
        forall|a: int| 0 <= a < r2.len() ==> yield_of(book, obtainable(book, inventory), #[trigger] r2[a].0) == Some(r2[a].1),
        forall|o: Seq<char>| #[trigger] yield_of(book, obtainable(book, inventory), o) is Some ==> exists|a: int|
            0 <= a < r2.len() && r2[a].0 == o,
    ensures
        forall|a: int| 0 <= a < r1.len() ==> r2.contains(#[trigger] r1[a]),
{
    assert forall|a: int| 0 <= a < r1.len() implies r2.contains(#[trigger] r1[a]) by {
        let o = r1[a].0;
        let b = choose|b: int| 0 <= b < r2.len() && r2[b].0 == o;
        assert(r2[b] == r1[a]);
    }
}

/// A yield of 0 counts as 1.
pub open spec fn at_least_one(c: u32) -> u32 {
    if c == 0 {
        1
    } else {
        c
    }
}

/// Two books list the same recipes, outputs and slots alike, in the same
/// order; only their yields may differ.
pub open spec fn same_shape(b1: Seq<BookEntry>, b2: Seq<BookEntry>) -> bool {
    &&& b1.len() == b2.len()
    &&& forall|k: int|
        #![trigger b1[k]]
        #![trigger b2[k]]
        0 <= k < b1.len() ==> b1[k].output == b2[k].output && b1[k].slots == b2[k].slots
}

proof fn lemma_same_shape_craftable(b1: Seq<BookEntry>, b2: Seq<BookEntry>, have: Set<Seq<char>>)
    requires
        same_shape(b1, b2),
    ensures
        forall|x: Seq<char>| is_output(b1, x) == is_output(b2, x),
        forall|k: int| 0 <= k < b1.len() ==> craftable(b1, have, #[trigger] b1[k]) == craftable(b2, have, b2[k]),
{
    assert forall|x: Seq<char>| is_output(b1, x) == is_output(b2, x) by {
        if is_output(b1, x) {
            let k = choose|k: int| 0 <= k < b1.len() && #[trigger] b1[k].output == x;
            assert(b2[k].output == x);
        }
        if is_output(b2, x) {
            let k = choose|k: int| 0 <= k < b2.len() && #[trigger] b2[k].output == x;
            assert(b1[k].output == x);
        }
    }
    assert forall|k: int| 0 <= k < b1.len() implies craftable(b1, have, #[trigger] b1[k]) == craftable(b2, have, b2[k]) by {
        assert(b1[k].slots == b2[k].slots);
        assert forall|x: Seq<char>| available(b1, have, x) == available(b2, have, x) by {}
        if craftable(b1, have, b1[k]) {
            assert forall|j: int| 0 <= j < b2[k].slots.len() implies slot_open(b2, have, #[trigger] b2[k].slots[j]) by {
                assert(slot_open(b1, have, b1[k].slots[j]));
                let x = choose|x: Seq<char>| b1[k].slots[j].contains(x) && available(b1, have, x);
            }
        }
        if craftable(b2, have, b2[k]) {
            assert forall|j: int| 0 <= j < b1[k].slots.len() implies slot_open(b1, have, #[trigger] b1[k].slots[j]) by {
                assert(slot_open(b2, have, b2[k].slots[j]));
                let x = choose|x: Seq<char>| b2[k].slots[j].contains(x) && available(b2, have, x);
            }
        }
    }
}

/// Books of the same shape make the same items obtainable; the yield one
/// reports is the other's, mapped through how their yields relate.
pub proof fn lemma_same_shape_yields(
    b1: Seq<BookEntry>,
    b2: Seq<BookEntry>,
    inventory: Set<Seq<char>>,
    f: spec_fn(u32) -> u32,
)
    requires
        same_shape(b1, b2),
        forall|k: int| 0 <= k < b1.len() ==> #[trigger] b2[k].count == f(b1[k].count),
    ensures
        obtainable(b2, inventory) == obtainable(b1, inventory),
        forall|o: Seq<char>| #[trigger] yield_of(b2, obtainable(b2, inventory), o) == match yield_of(b1, obtainable(b1, inventory), o) {
            Some(c) => Some(f(c)),
            None => None,
        },
{
    assert forall|s: Set<Seq<char>>| #[trigger] closed(b1, s) == closed(b2, s) by {
        lemma_same_shape_craftable(b1, b2, s);
        if closed(b1, s) {
            assert forall|k: int| 0 <= k < b2.len() && craftable(b2, s, #[trigger] b2[k]) implies s.contains(b2[k].output) by {
                assert(craftable(b1, s, b1[k]));
            }
        }
        if closed(b2, s) {
            assert forall|k: int| 0 <= k < b1.len() && craftable(b1, s, #[trigger] b1[k]) implies s.contains(b1[k].output) by {
                assert(craftable(b2, s, b2[k]));
            }
        }
    }
    assert forall|x: Seq<char>| obtainable(b2, inventory).contains(x) == obtainable(b1, inventory).contains(x) by {
        if obtainable(b2, inventory).contains(x) {
            assert forall|s: Set<Seq<char>>| inventory.subset_of(s) && #[trigger] closed(b1, s) implies s.contains(x) by {
                assert(closed(b2, s));
            }
        }
        if obtainable(b1, inventory).contains(x) {
            assert forall|s: Set<Seq<char>>| inventory.subset_of(s) && #[trigger] closed(b2, s) implies s.contains(x) by {
                assert(closed(b1, s));
            }
        }
    }
    assert(obtainable(b2, inventory) =~= obtainable(b1, inventory));
    let ob = obtainable(b1, inventory);
    lemma_same_shape_craftable(b1, b2, ob);
    assert forall|o: Seq<char>| #[trigger] yield_of(b2, ob, o) == match yield_of(b1, ob, o) {
        Some(c) => Some(f(c)),
        None => None,
    } by {
        lemma_same_shape_first_yield(b1, b2, ob, o, f, b1.len() as int);
    }
}

proof fn lemma_same_shape_first_yield(
    b1: Seq<BookEntry>,
    b2: Seq<BookEntry>,
    have: Set<Seq<char>>,
    o: Seq<char>,
    f: spec_fn(u32) -> u32,
    n: int,
)
    requires
        same_shape(b1, b2),
        forall|k: int| 0 <= k < b1.len() ==> #[trigger] b2[k].count == f(b1[k].count),
        forall|k: int| 0 <= k < b1.len() ==> craftable(b1, have, #[trigger] b1[k]) == craftable(b2, have, b2[k]),
        n <= b1.len(),
    ensures
        first_yield(b2, have, o, n) == match first_yield(b1, have, o, n) {
            Some(c) => Some(f(c)),
            None => None,
        },
    decreases n,
{
    if n > 0 {
        lemma_same_shape_first_yield(b1, b2, have, o, f, n - 1);
        assert(b1[n - 1].output == b2[n - 1].output);
        assert(craftable(b1, have, b1[n - 1]) == craftable(b2, have, b2[n - 1]));
        assert(b2[n - 1].count == f(b1[n - 1].count));
    }
}

/// A recipe ready to be indexed: its output, its yield and its consolidated
/// slots (each slot lists its options once).
pub struct RawRecipe {
    pub output: String,
    pub count: u32,
    pub slots: Vec<Vec<String>>,
}

impl RawRecipe {
    pub open spec fn entry(&self) -> BookEntry {
        BookEntry { output: self.output@, count: self.count, slots: slot_sets(self.slots@) }
    }
}

/// The recipe book that a list of raw recipes forms.
pub open spec fn book_of_raw(raws: Seq<RawRecipe>) -> Seq<BookEntry> {
    Seq::new(raws.len(), |k: int| raws[k].entry())
}

/// A recipe of a prepared index; `output` indexes the index's output list.
struct PreparedRecipe {
    output: usize,
    count: u32,
    slots: Vec<Vec<String>>,
}

/// The positions, in increasing order, among the first `n` of `outs`, that
/// hold `i`.
pub open spec fn indices_of(outs: Seq<usize>, i: usize, n: int) -> Seq<usize>
    decreases n,
{
    if n <= 0 {
        Seq::empty()
    } else {
        let prev = indices_of(outs, i, n - 1);
        if outs[n - 1] == i {
            prev.push((n - 1) as usize)
        } else {
            prev
        }
    }
}

/// The yield of the first recipe, among those at the positions `l`, that is
/// craftable from `have`.
pub open spec fn first_in(book: Seq<BookEntry>, have: Set<Seq<char>>, l: Seq<usize>) -> Option<u32>
    decreases l.len(),
{
    if l.len() == 0 {
        None
    } else {
        match first_in(book, have, l.drop_last()) {
            Some(c) => Some(c),
            None => if craftable(book, have, book[l.last() as int]) {
                Some(book[l.last() as int].count)
            } else {
                None
            },
        }
    }
}

proof fn lemma_indices_of_props(outs: Seq<usize>, i: usize, n: int)
    requires
        n <= outs.len(),
        n <= usize::MAX,
    ensures
        forall|t: int| 0 <= t < indices_of(outs, i, n).len() ==> #[trigger] indices_of(outs, i, n)[t] < n
            && outs[indices_of(outs, i, n)[t] as int] == i,
        forall|k: int| 0 <= k < n && outs[k] == i ==> indices_of(outs, i, n).contains(k as usize),
    decreases n,
{
    if n > 0 {
        lemma_indices_of_props(outs, i, n - 1);
        let prev = indices_of(outs, i, n - 1);
        let l = indices_of(outs, i, n);
        if outs[n - 1] == i {
            assert(l == prev.push((n - 1) as usize));
        } else {
            assert(l == prev);
        }
        assert forall|t: int| 0 <= t < l.len() implies #[trigger] l[t] < n && outs[l[t] as int] == i by {
            if t < prev.len() {
                assert(l[t] == prev[t]);
            }
        }
        assert forall|k: int| 0 <= k < n && outs[k] == i implies l.contains(k as usize) by {
            if k < n - 1 {
                let t = choose|t: int| 0 <= t < prev.len() && prev[t] == k as usize;
                if outs[n - 1] == i {
                    assert(l[t] == prev[t]);
                }
            } else {
                assert(l[l.len() - 1] == k as usize);
            }
        }
    }
}

proof fn lemma_indices_of_prefix(outs: Seq<usize>, more: Seq<usize>, i: usize, n: int)
    requires
        n <= outs.len(),
        n <= more.len(),
        forall|k: int| 0 <= k < n ==> outs[k] == more[k],
    ensures
        indices_of(outs, i, n) == indices_of(more, i, n),
    decreases n,
{
    if n > 0 {
        lemma_indices_of_prefix(outs, more, i, n - 1);
    }
}

proof fn lemma_indices_of_absent(outs: Seq<usize>, i: usize, n: int)
    requires
        n <= outs.len(),
        forall|k: int| 0 <= k < n ==> outs[k] != i,
    ensures
        indices_of(outs, i, n) == Seq::<usize>::empty(),
    decreases n,
{
    if n > 0 {
        lemma_indices_of_absent(outs, i, n - 1);
    }
}

proof fn lemma_first_in_prefix(book: Seq<BookEntry>, have: Set<Seq<char>>, l: Seq<usize>, m: int)
    requires
        0 <= m <= l.len(),
        first_in(book, have, l.take(m)) is Some,
    ensures
        first_in(book, have, l) == first_in(book, have, l.take(m)),
    decreases l.len() - m,
{
    if m < l.len() {
        assert(l.take(m + 1).drop_last() =~= l.take(m));
        lemma_first_in_prefix(book, have, l, m + 1);
    } else {
        assert(l.take(m) =~= l);
    }
}

/// The index of a recipe book: its distinct outputs, its recipes, for each
/// output the positions of its recipes, and for each output the outputs whose
/// recipes list it as an option.
pub struct PreparedIndex {
    outputs: Vec<String>,
    entries: Vec<PreparedRecipe>,
    by_output: Vec<Vec<usize>>,
    parents: Vec<Vec<usize>>,
}

/// The outputs marked as resolved.
pub open spec fn have_of(outputs: Seq<String>, resolved: Seq<bool>) -> Set<Seq<char>> {
    Set::new(|x: Seq<char>| exists|j: int| 0 <= j < outputs.len() && resolved[j] && #[trigger] outputs[j]@ == x)
}

spec fn outs_of(entries: Seq<PreparedRecipe>) -> Seq<usize> {
    Seq::new(entries.len(), |k: int| entries[k].output)
}

/// Option `j` of the output list, when slot `q` of recipe `k` offers it, has
/// that recipe's output among its parents.
spec fn parent_recorded(
    parents: Seq<Vec<usize>>,
    entries: Seq<PreparedRecipe>,
    outputs: Seq<String>,
    k: int,
    q: int,
    j: int,
) -> bool {
    view_set(entries[k].slots@[q]@).contains(outputs[j]@) ==> parents[j]@.contains(entries[k].output)
}

impl PreparedIndex {
    spec fn outs(self) -> Seq<usize> {
        outs_of(self.entries@)
    }

    /// The recipe book this index holds.
    pub closed spec fn book(self) -> Seq<BookEntry> {
        Seq::new(
            self.entries.len() as nat,
            |k: int|
                BookEntry {
                    output: self.outputs@[self.entries@[k].output as int]@,
                    count: self.entries@[k].count,
                    slots: slot_sets(self.entries@[k].slots@),
                },
        )
    }

    /// The index's internal consistency: distinct outputs, and each output's
    /// recipe and parent lists agreeing with the recipes.
    #[verifier::type_invariant]
    closed spec fn wf(self) -> bool {
        &&& distinct_views(self.outputs@)
        &&& forall|k: int| 0 <= k < self.entries.len() ==> #[trigger] self.entries@[k].output < self.outputs.len()
        &&& forall|k: int| 0 <= k < self.entries.len() ==> slots_distinct(#[trigger] self.entries@[k].slots@)
        &&& self.by_output.len() == self.outputs.len()
        &&& forall|i: int| 0 <= i < self.outputs.len() ==> #[trigger] self.by_output@[i]@ == indices_of(
            self.outs(),
            i as usize,
            self.entries.len() as int,
        )
        &&& forall|i: int| 0 <= i < self.outputs.len() ==> #[trigger] self.by_output@[i]@.len() > 0
        &&& self.parents.len() == self.outputs.len()
        &&& forall|j: int, t: int|
            0 <= j < self.parents.len() && 0 <= t < self.parents@[j].len() ==> #[trigger] self.parents@[j]@[t]
                < self.outputs.len()
        &&& forall|k: int, q: int, j: int|
            0 <= k < self.entries.len() && 0 <= q < self.entries@[k].slots.len() && 0 <= j < self.outputs.len()
                && #[trigger] view_set(self.entries@[k].slots@[q]@).contains(#[trigger] self.outputs@[j]@)
                ==> self.parents@[j]@.contains(self.entries@[k].output)
    }

    proof fn lemma_outputs(self)
        requires
            self.wf(),
        ensures
            forall|x: Seq<char>| is_output(self.book(), x) <==> view_set(self.outputs@).contains(x),
            forall|k: int| 0 <= k < self.entries.len() ==> #[trigger] self.book()[k].output == self.outputs@[self.entries@[k].output as int]@,
    {
        let book = self.book();
        assert forall|x: Seq<char>| is_output(book, x) <==> view_set(self.outputs@).contains(x) by {
            if is_output(book, x) {
                let k = choose|k: int| 0 <= k < book.len() && #[trigger] book[k].output == x;
                assert(self.entries@[k].output < self.outputs.len());
            }
            if view_set(self.outputs@).contains(x) {
                let i = choose|i: int| 0 <= i < self.outputs@.len() && self.outputs@[i]@ == x;
                lemma_indices_of_props(self.outs(), i as usize, self.entries.len() as int);
                assert(self.by_output@[i]@.len() > 0);
                let k = self.by_output@[i]@[0] as int;
                assert(self.outs()[k] == i);
                assert(book[k].output == x);
            }
        }
    }

    proof fn lemma_first_in_indices(self, have: Set<Seq<char>>, i: int, n: int)
        requires
            self.wf(),
            0 <= i < self.outputs.len(),
            0 <= n <= self.entries.len(),
        ensures
            first_in(self.book(), have, indices_of(self.outs(), i as usize, n)) == first_yield(
                self.book(),
                have,
                self.outputs@[i]@,
                n,
            ),
        decreases n,
    {
        if n > 0 {
            self.lemma_first_in_indices(have, i, n - 1);
            let prev = indices_of(self.outs(), i as usize, n - 1);
            let book = self.book();
            let k = n - 1;
            assert(self.entries@[k].output < self.outputs.len());
            if self.outs()[k] == i as usize {
                assert(prev.push(k as usize).drop_last() =~= prev);
            } else {
                assert(book[k].output != self.outputs@[i]@);
            }
        }
    }

    /// Whether some option of `slot` is available with the outputs marked in
    /// `resolved`.
    fn slot_is_open(&self, slot: &Vec<String>, resolved: &Vec<bool>) -> (r: bool)
        requires
            self.wf(),
            resolved@.len() == self.outputs.len(),
        ensures
            r == slot_open(self.book(), have_of(self.outputs@, resolved@), view_set(slot@)),
    {
        let ghost book = self.book();
        let ghost have = have_of(self.outputs@, resolved@);
        proof { self.lemma_outputs(); }
        let mut q: usize = 0;
        while q < slot.len()
            invariant
                self.wf(),
                resolved@.len() == self.outputs.len(),
                book == self.book(),
                have == have_of(self.outputs@, resolved@),
                forall|x: Seq<char>| is_output(book, x) <==> view_set(self.outputs@).contains(x),
                q <= slot.len(),
                forall|p: int| 0 <= p < q ==> !available(book, have, #[trigger] slot@[p]@),
            decreases slot.len() - q,
        {
            match position_of(&self.outputs, &slot[q]) {
                None => {
                    assert(view_set(slot@).contains(slot@[q as int]@));
                    assert(available(book, have, slot@[q as int]@));
                    return true;
                },
                Some(j) => {
                    if resolved[j] {
                        assert(have.contains(slot@[q as int]@));
                        assert(view_set(slot@).contains(slot@[q as int]@));
                        return true;
                    }
                    assert(!have.contains(slot@[q as int]@)) by {
                        if have.contains(slot@[q as int]@) {
                            let j2 = choose|j2: int| 0 <= j2 < self.outputs@.len() && resolved@[j2] && #[trigger] self.outputs@[j2]@ == slot@[q as int]@;
                            assert(j2 == j);
                        }
                    }
                    assert(view_set(self.outputs@).contains(slot@[q as int]@));
                },
            }
            q = q + 1;
        }
        assert(!slot_open(book, have, view_set(slot@))) by {
            if slot_open(book, have, view_set(slot@)) {
                let x = choose|x: Seq<char>| view_set(slot@).contains(x) && available(book, have, x);
                let p = choose|p: int| 0 <= p < slot@.len() && slot@[p]@ == x;
                assert(!available(book, have, slot@[p]@));
            }
        }
        false
    }

    /// Whether recipe `k` is craftable with the outputs marked in `resolved`.
    fn recipe_is_craftable(&self, k: usize, resolved: &Vec<bool>) -> (r: bool)
        requires
            self.wf(),
            k < self.entries.len(),
            resolved@.len() == self.outputs.len(),
        ensures
            r == craftable(self.book(), have_of(self.outputs@, resolved@), self.book()[k as int]),
    {
        let ghost book = self.book();
        let ghost have = have_of(self.outputs@, resolved@);
        let slots = &self.entries[k].slots;
        let mut q: usize = 0;
        while q < slots.len()
            invariant
                self.wf(),
                k < self.entries.len(),
                slots == &self.entries@[k as int].slots,
                resolved@.len() == self.outputs.len(),
                book == self.book(),
                have == have_of(self.outputs@, resolved@),
                q <= slots.len(),
                forall|p: int| 0 <= p < q ==> slot_open(book, have, #[trigger] book[k as int].slots[p]),
            decreases slots.len() - q,
        {
            if !self.slot_is_open(&slots[q], resolved) {
                assert(book[k as int].slots[q as int] == view_set(slots@[q as int]@));
                return false;
            }
            assert(book[k as int].slots[q as int] == view_set(slots@[q as int]@));
            q = q + 1;
        }
        true
    }

    /// How many of output `i` one craft yields by its first recipe that is
    /// craftable with the outputs marked in `resolved`.
    fn craftable_count(&self, i: usize, resolved: &Vec<bool>) -> (r: Option<u32>)
        requires
            self.wf(),
            i < self.outputs.len(),
            resolved@.len() == self.outputs.len(),
        ensures
            r == yield_of(self.book(), have_of(self.outputs@, resolved@), self.outputs@[i as int]@),
    {
        let ghost book = self.book();
        let ghost have = have_of(self.outputs@, resolved@);
        let list = &self.by_output[i];
        proof {
            self.lemma_first_in_indices(have, i as int, self.entries.len() as int);
            lemma_indices_of_props(self.outs(), i, self.entries.len() as int);
        }
        let mut t: usize = 0;
        while t < list.len()
            invariant
                self.wf(),
                i < self.outputs.len(),
                list == &self.by_output@[i as int],
                resolved@.len() == self.outputs.len(),
                book == self.book(),
                have == have_of(self.outputs@, resolved@),
                t <= list.len(),
                first_in(book, have, list@.take(t as int)) is None,
                first_in(book, have, list@) == yield_of(book, have, self.outputs@[i as int]@),
                forall|p: int| 0 <= p < list@.len() ==> #[trigger] list@[p] < self.entries.len(),
            decreases list.len() - t,
        {
            let k = list[t];
            assert(list@.take(t + 1).drop_last() =~= list@.take(t as int));
            if self.recipe_is_craftable(k, resolved) {
                proof { lemma_first_in_prefix(book, have, list@, t + 1); }
                return Some(self.entries[k].count);
            }
            t = t + 1;
        }
        assert(list@.take(t as int) =~= list@);
        None
    }
}


/// Indexes a recipe book: the distinct outputs in order of first appearance,
/// each output's recipes, and each output's parents.
pub fn prepare_index(raws: Vec<RawRecipe>) -> (r: PreparedIndex)
    ensures
        r.book() == book_of_raw(raws@),
{
    let ghost book = book_of_raw(raws@);
    let ghost original = raws@;
    let n = raws.len();
    let mut outputs: Vec<String> = Vec::new();
    let mut entries: Vec<PreparedRecipe> = Vec::new();
    let mut by_output: Vec<Vec<usize>> = Vec::new();
    let mut k: usize = 0;
    while k < n
        invariant
            n == raws.len(),
            n == original.len(),
            book == book_of_raw(original),
            forall|q: int| k <= q < n ==> #[trigger] raws@[q] == original[q],
            k <= n,
            entries.len() == k,
            distinct_views(outputs@),
            by_output.len() == outputs.len(),
            forall|q: int| 0 <= q < k ==> #[trigger] entries@[q].output < outputs.len(),
            forall|q: int| 0 <= q < k ==> slots_distinct(#[trigger] entries@[q].slots@),
            forall|q: int|
                0 <= q < k ==> outputs@[#[trigger] entries@[q].output as int]@ == book[q].output
                    && entries@[q].count == book[q].count && slot_sets(entries@[q].slots@) == book[q].slots,
            forall|i: int| 0 <= i < outputs.len() ==> #[trigger] by_output@[i]@ == indices_of(
                outs_of(entries@),
                i as usize,
                k as int,
            ),
            forall|i: int| 0 <= i < outputs.len() ==> #[trigger] by_output@[i]@.len() > 0,
        decreases n - k,
    {
        let ghost old_entries = entries@;
        let ghost old_by_output = by_output@;
        let ghost old_outputs = outputs@;
        let slots = distinct_slots(&raws[k].slots);
        let count = raws[k].count;
        proof {
            assert(slot_sets(slots@) == slot_sets(original[k as int].slots@));
            assert(raws@[k as int].output == original[k as int].output);
        }
        let idx = match position_of(&outputs, &raws[k].output) {
            Some(i) => i,
            None => {
                outputs.push(raws[k].output.clone());
                by_output.push(Vec::new());
                proof {
                    assert(outputs@ =~= old_outputs.push(outputs@.last()));
                    lemma_push_distinct(old_outputs, outputs@.last());
                    lemma_indices_of_absent(outs_of(old_entries), (outputs.len() - 1) as usize, k as int);
                }
                outputs.len() - 1
            },
        };
        let ghost mid_by_output = by_output@;
        proof {
            assert forall|i: int| 0 <= i < outputs.len() implies #[trigger] mid_by_output[i]@ == indices_of(
                outs_of(old_entries), i as usize, k as int) by {
                if i < old_outputs.len() {
                    assert(mid_by_output[i] == old_by_output[i]);
                }
            }
        }
        by_output[idx].push(k);
        entries.push(PreparedRecipe { output: idx, count, slots });
        proof {
            assert(outputs@[idx as int]@ == original[k as int].output@);
            let no = outs_of(old_entries);
            let nn = outs_of(entries@);
            assert(nn =~= no.push(idx));
            assert forall|q: int| 0 <= q < k + 1 implies #[trigger] entries@[q].output < outputs.len() by {
                if q < k {
                    assert(entries@[q] == old_entries[q]);
                }
            }
            assert forall|q: int| 0 <= q < k + 1 implies slots_distinct(#[trigger] entries@[q].slots@) by {
                if q < k {
                    assert(entries@[q] == old_entries[q]);
                }
            }
            assert forall|q: int| 0 <= q < k + 1 implies outputs@[#[trigger] entries@[q].output as int]@ == book[q].output
                && entries@[q].count == book[q].count && slot_sets(entries@[q].slots@) == book[q].slots by {
                if q < k {
                    assert(entries@[q] == old_entries[q]);
                    assert(old_entries[q].output < old_outputs.len());
                    assert(outputs@[old_entries[q].output as int] == old_outputs[old_entries[q].output as int]);
                }
            }
            assert forall|i: int| 0 <= i < outputs.len() implies #[trigger] by_output@[i]@ == indices_of(nn, i as usize, k + 1) by {
                lemma_indices_of_prefix(no, nn, i as usize, k as int);
                assert(mid_by_output[i]@ == indices_of(no, i as usize, k as int));
                if i == idx {
                    assert(by_output@[i]@ == mid_by_output[i]@.push(k));
                } else {
                    assert(by_output@[i] == mid_by_output[i]);
                }
            }
            assert forall|i: int| 0 <= i < outputs.len() implies #[trigger] by_output@[i]@.len() > 0 by {
                if i != idx {
                    assert(by_output@[i] == mid_by_output[i]);
                    assert(by_output@[i] == old_by_output[i]);
                }
            }
            assert forall|q: int| k + 1 <= q < n implies #[trigger] raws@[q] == original[q] by {}
        }
        k = k + 1;
    }
    let m = outputs.len();
    let mut parents: Vec<Vec<usize>> = Vec::new();
    let mut j: usize = 0;
    while j < m
        invariant
            m == outputs.len(),
            j <= m,
            parents.len() == j,
            forall|a: int| 0 <= a < j ==> #[trigger] parents@[a]@.len() == 0,
        decreases m - j,
    {
        parents.push(Vec::new());
        j = j + 1;
    }
    let ghost es = entries@;
    let ghost os = outputs@;
    let mut k: usize = 0;
    while k < entries.len()
        invariant
            es == entries@,
            os == outputs@,
            distinct_views(os),
            m == outputs.len(),
            parents.len() == m,
            k <= entries.len(),
            forall|a: int| 0 <= a < entries.len() ==> #[trigger] entries@[a].output < m,
            forall|a: int, t: int| 0 <= a < m && 0 <= t < parents@[a].len() ==> #[trigger] parents@[a]@[t] < m,
            forall|a: int, q: int, b: int|
                0 <= a < k && 0 <= q < es[a].slots.len() && 0 <= b < m ==> #[trigger] parent_recorded(
                    parents@,
                    es,
                    os,
                    a,
                    q,
                    b,
                ),
        decreases entries.len() - k,
    {
        let out_k = entries[k].output;
        let slots = &entries[k].slots;
        let mut q: usize = 0;
        while q < slots.len()
            invariant
                es == entries@,
                os == outputs@,
                distinct_views(os),
                slots == &es[k as int].slots,
                out_k == es[k as int].output,
                out_k < m,
                m == outputs.len(),
                parents.len() == m,
                k < entries.len(),
                q <= slots.len(),
                forall|a: int, t: int| 0 <= a < m && 0 <= t < parents@[a].len() ==> #[trigger] parents@[a]@[t] < m,
                forall|a: int, q2: int, b: int|
                    0 <= a < k && 0 <= q2 < es[a].slots.len() && 0 <= b < m ==> #[trigger] parent_recorded(
                        parents@,
                        es,
                        os,
                        a,
                        q2,
                        b,
                    ),
                forall|q2: int, b: int| 0 <= q2 < q && 0 <= b < m ==> #[trigger] parent_recorded(
                    parents@,
                    es,
                    os,
                    k as int,
                    q2,
                    b,
                ),
            decreases slots.len() - q,
        {
            let slot = &slots[q];
            let mut t: usize = 0;
            while t < slot.len()
                invariant
                    es == entries@,
                    os == outputs@,
                    distinct_views(os),
                    slots == &es[k as int].slots,
                    slot == &slots@[q as int],
                    out_k == es[k as int].output,
                    out_k < m,
                    m == outputs.len(),
                    parents.len() == m,
                    k < entries.len(),
                    q < slots.len(),
                    t <= slot.len(),
                    forall|a: int, t2: int| 0 <= a < m && 0 <= t2 < parents@[a].len() ==> #[trigger] parents@[a]@[t2] < m,
                    forall|a: int, q2: int, b: int|
                        0 <= a < k && 0 <= q2 < es[a].slots.len() && 0 <= b < m ==> #[trigger] parent_recorded(
                            parents@,
                            es,
                            os,
                            a,
                            q2,
                            b,
                        ),
                    forall|q2: int, b: int| 0 <= q2 < q && 0 <= b < m ==> #[trigger] parent_recorded(
                        parents@,
                        es,
                        os,
                        k as int,
                        q2,
                        b,
                    ),
                    forall|t2: int, b: int| #![trigger slot@[t2], os[b]] 0 <= t2 < t && 0 <= b < m && slot@[t2]@ == os[b]@
                        ==> parents@[b]@.contains(out_k),
                decreases slot.len() - t,
            {
                match position_of(&outputs, &slot[t]) {
                    Some(b) => {
                        if !contains_index(&parents[b], out_k) {
                            let ghost before = parents@;
                            parents[b].push(out_k);
                            proof {
                                assert forall|a: int| 0 <= a < m && a != b implies parents@[a] == before[a] by {}
                                assert forall|a: int, x: usize| 0 <= a < m && before[a]@.contains(x)
                                    implies #[trigger] parents@[a]@.contains(x) by {
                                    if a == b {
                                        let w = choose|w: int| 0 <= w < before[a]@.len() && before[a]@[w] == x;
                                        assert(parents@[a]@[w] == x);
                                    }
                                }
                                assert(parents@[b as int]@[parents@[b as int]@.len() - 1] == out_k);
                                assert forall|a: int, t2: int| 0 <= a < m && 0 <= t2 < parents@[a].len()
                                    implies #[trigger] parents@[a]@[t2] < m by {
                                    if a == b && t2 == before[a].len() {
                                    } else {
                                        assert(parents@[a]@[t2] == before[a]@[t2]);
                                    }
                                }
                                assert forall|a: int, q2: int, c: int|
                                    0 <= a < k && 0 <= q2 < es[a].slots.len() && 0 <= c < m
                                    implies #[trigger] parent_recorded(parents@, es, os, a, q2, c) by {
                                    assert(parent_recorded(before, es, os, a, q2, c));
                                }
                                assert forall|q2: int, c: int| 0 <= q2 < q && 0 <= c < m
                                    implies #[trigger] parent_recorded(parents@, es, os, k as int, q2, c) by {
                                    assert(parent_recorded(before, es, os, k as int, q2, c));
                                }
                            }
                        }
                        proof {
                            assert forall|t2: int, c: int| #![trigger slot@[t2], os[c]] 0 <= t2 < t + 1 && 0 <= c < m && slot@[t2]@ == os[c]@
                                implies parents@[c]@.contains(out_k) by {
                                if t2 == t {
                                    assert(c == b);
                                }
                            }
                        }
                    },
                    None => {},
                }
                t = t + 1;
            }
            proof {
                assert forall|q2: int, b: int| 0 <= q2 < q + 1 && 0 <= b < m
                    implies #[trigger] parent_recorded(parents@, es, os, k as int, q2, b) by {
                    if q2 == q && view_set(es[k as int].slots@[q2]@).contains(os[b]@) {
                        let t2 = choose|t2: int| 0 <= t2 < slot@.len() && slot@[t2]@ == os[b]@;
                        assert(slot@[t2]@ == os[b]@);
                    }
                }
            }
            q = q + 1;
        }
        k = k + 1;
    }
    proof {
        assert forall|a: int, q: int, b: int|
            0 <= a < entries.len() && 0 <= q < entries@[a].slots.len() && 0 <= b < outputs.len()
                && #[trigger] view_set(entries@[a].slots@[q]@).contains(#[trigger] outputs@[b]@)
            implies parents@[b]@.contains(entries@[a].output) by {
            assert(parent_recorded(parents@, es, os, a, q, b));
        }
    }
    let r = PreparedIndex { outputs, entries, by_output, parents };
    assert(r.book() =~= book);
    r
}


/// Outputs marked as resolved and no longer waiting in the queue.
spec fn settled(outputs: Seq<String>, resolved: Seq<bool>, queue: Seq<usize>) -> Set<Seq<char>> {
    Set::new(
        |x: Seq<char>|
            exists|j: int|
                0 <= j < outputs.len() && resolved[j] && !queue.contains(j as usize) && #[trigger] outputs[j]@ == x,
    )
}

/// The queue lists resolved outputs, each once.
spec fn queue_ok(n: int, resolved: Seq<bool>, queue: Seq<usize>) -> bool {
    &&& forall|t: int| 0 <= t < queue.len() ==> #[trigger] queue[t] < n && resolved[queue[t] as int]
    &&& forall|a: int, b: int| 0 <= a < queue.len() && 0 <= b < queue.len() && a != b ==> queue[a] != queue[b]
}

proof fn lemma_settled_pop(outputs: Seq<String>, resolved: Seq<bool>, queue: Seq<usize>)
    requires
        queue.len() > 0,
        outputs.len() <= usize::MAX,
        resolved.len() == outputs.len(),
        distinct_views(outputs),
        queue_ok(outputs.len() as int, resolved, queue),
    ensures
        settled(outputs, resolved, queue.subrange(1, queue.len() as int)) == settled(outputs, resolved, queue).insert(
            outputs[queue[0] as int]@,
        ),
{
    let rest = queue.subrange(1, queue.len() as int);
    let x = queue[0] as int;
    assert(queue[0] < outputs.len() && resolved[x]);
    assert(!rest.contains(x as usize)) by {
        if rest.contains(x as usize) {
            let t = choose|t: int| 0 <= t < rest.len() && rest[t] == x as usize;
            assert(queue[t + 1] == queue[0]);
        }
    }
    assert forall|y: Seq<char>| settled(outputs, resolved, rest).contains(y) <==> settled(outputs, resolved, queue).insert(outputs[x]@).contains(y) by {
        if settled(outputs, resolved, rest).contains(y) && y != outputs[x]@ {
            let j = choose|j: int| 0 <= j < outputs.len() && resolved[j] && !rest.contains(j as usize) && #[trigger] outputs[j]@ == y;
            assert(j != x);
            assert(!queue.contains(j as usize)) by {
                if queue.contains(j as usize) {
                    let t = choose|t: int| 0 <= t < queue.len() && queue[t] == j as usize;
                    assert(queue[t] as int == j);
                    assert(t != 0);
                    assert(rest[t - 1] == j as usize);
                }
            }
        }
        if settled(outputs, resolved, queue).contains(y) {
            let j = choose|j: int| 0 <= j < outputs.len() && resolved[j] && !queue.contains(j as usize) && #[trigger] outputs[j]@ == y;
            assert(!rest.contains(j as usize)) by {
                if rest.contains(j as usize) {
                    let t = choose|t: int| 0 <= t < rest.len() && rest[t] == j as usize;
                    assert(queue[t + 1] == j as usize);
                }
            }
        }
    }
    assert(settled(outputs, resolved, rest) =~= settled(outputs, resolved, queue).insert(outputs[x]@));
}

proof fn lemma_settled_push(outputs: Seq<String>, resolved: Seq<bool>, queue: Seq<usize>, p: usize)
    requires
        resolved.len() == outputs.len(),
        outputs.len() <= usize::MAX,
        p < outputs.len(),
        !resolved[p as int],
        queue_ok(outputs.len() as int, resolved, queue),
    ensures
        settled(outputs, resolved.update(p as int, true), queue.push(p)) == settled(outputs, resolved, queue),
        queue_ok(outputs.len() as int, resolved.update(p as int, true), queue.push(p)),
{
    let r2 = resolved.update(p as int, true);
    let q2 = queue.push(p);
    assert(q2[queue.len() as int] == p);
    assert forall|y: Seq<char>| settled(outputs, r2, q2).contains(y) <==> settled(outputs, resolved, queue).contains(y) by {
        if settled(outputs, r2, q2).contains(y) {
            let j = choose|j: int| 0 <= j < outputs.len() && r2[j] && !q2.contains(j as usize) && #[trigger] outputs[j]@ == y;
            assert(q2.contains(p));
            assert(j != p);
            assert(!queue.contains(j as usize)) by {
                if queue.contains(j as usize) {
                    let t = choose|t: int| 0 <= t < queue.len() && queue[t] == j as usize;
                    assert(q2[t] == j as usize);
                }
            }
        }
        if settled(outputs, resolved, queue).contains(y) {
            let j = choose|j: int| 0 <= j < outputs.len() && resolved[j] && !queue.contains(j as usize) && #[trigger] outputs[j]@ == y;
            assert(j != p);
            assert(!q2.contains(j as usize)) by {
                if q2.contains(j as usize) {
                    let t = choose|t: int| 0 <= t < q2.len() && q2[t] == j as usize;
                    assert(q2[t] as int == j);
                    assert(t < queue.len());
                    assert(queue[t] == j as usize);
                }
            }
        }
    }
    assert(settled(outputs, r2, q2) =~= settled(outputs, resolved, queue));
    assert forall|t: int| 0 <= t < q2.len() implies #[trigger] q2[t] < outputs.len() && r2[q2[t] as int] by {
        if t < queue.len() {
            assert(q2[t] == queue[t]);
        }
    }
    assert forall|a: int, b: int| 0 <= a < q2.len() && 0 <= b < q2.len() && a != b implies q2[a] != q2[b] by {
        if a < queue.len() && b < queue.len() {
        } else if a < queue.len() {
            assert(q2[a] == queue[a]);
            assert(resolved[queue[a] as int]);
        } else {
            assert(q2[b] == queue[b]);
            assert(resolved[queue[b] as int]);
        }
    }
}

proof fn lemma_settled_empty(outputs: Seq<String>, resolved: Seq<bool>)
    ensures
        settled(outputs, resolved, Seq::empty()) == have_of(outputs, resolved),
{
    assert(settled(outputs, resolved, Seq::empty()) =~= have_of(outputs, resolved));
}

/// Adding an item that no slot of a recipe offers leaves the recipe's
/// craftability unchanged.
proof fn lemma_insert_irrelevant(book: Seq<BookEntry>, have: Set<Seq<char>>, y: Seq<char>, e: BookEntry)
    requires
        forall|j: int| 0 <= j < e.slots.len() ==> !(#[trigger] e.slots[j]).contains(y),
    ensures
        craftable(book, have.insert(y), e) == craftable(book, have, e),
{
    if craftable(book, have, e) {
        lemma_craftable_monotone(book, have, have.insert(y), e);
    }
    if craftable(book, have.insert(y), e) {
        assert forall|j: int| 0 <= j < e.slots.len() implies slot_open(book, have, #[trigger] e.slots[j]) by {
            let x = choose|x: Seq<char>| e.slots[j].contains(x) && available(book, have.insert(y), x);
            assert(x != y);
        }
    }
}

impl PreparedIndex {
    /// Every recipe whose output is not resolved is not craftable from `from`.
    spec fn stuck(self, resolved: Seq<bool>, from: Set<Seq<char>>, below: int) -> bool {
        forall|k: int|
            0 <= k < self.entries.len() && self.entries@[k].output < below && !resolved[self.entries@[k].output as int]
                ==> !craftable(self.book(), from, #[trigger] self.book()[k])
    }

    /// A resolved output that `craftable_count` found craftable is obtainable.
    proof fn lemma_found_obtainable(self, inventory: Set<Seq<char>>, resolved: Seq<bool>, p: int)
        requires
            self.wf(),
            resolved.len() == self.outputs.len(),
            0 <= p < self.outputs.len(),
            forall|j: int| 0 <= j < self.outputs.len() && #[trigger] resolved[j]
                ==> obtainable(self.book(), inventory).contains(self.outputs@[j]@),
            yield_of(self.book(), have_of(self.outputs@, resolved), self.outputs@[p]@) is Some,
        ensures
            obtainable(self.book(), inventory).contains(self.outputs@[p]@),
    {
        let book = self.book();
        let have = have_of(self.outputs@, resolved);
        lemma_first_yield_some(book, have, self.outputs@[p]@, book.len() as int);
        let k = choose|k: int| 0 <= k < book.len() && book[k].output == self.outputs@[p]@ && craftable(book, have, book[k])
            && book[k].count == yield_of(book, have, self.outputs@[p]@).unwrap();
        assert forall|x: Seq<char>| is_output(book, x) && #[trigger] have.contains(x) implies obtainable(book, inventory).contains(x) by {
            let j = choose|j: int| 0 <= j < self.outputs.len() && resolved[j] && #[trigger] self.outputs@[j]@ == x;
        }
        lemma_obtainable_closed(book, inventory, have, k);
    }

    /// When output `p` has no recipe craftable from `have`, none of its recipes
    /// is craftable from a smaller `from`.
    proof fn lemma_none_stuck(self, have: Set<Seq<char>>, from: Set<Seq<char>>, p: int)
        requires
            self.wf(),
            0 <= p < self.outputs.len(),
            outputs_within(self.book(), from, have),
            yield_of(self.book(), have, self.outputs@[p]@) is None,
        ensures
            forall|k: int| 0 <= k < self.entries.len() && self.entries@[k].output == p
                ==> !craftable(self.book(), from, #[trigger] self.book()[k]),
    {
        let book = self.book();
        self.lemma_outputs();
        assert forall|k: int| 0 <= k < self.entries.len() && self.entries@[k].output == p
            implies !craftable(book, from, #[trigger] book[k]) by {
            assert(book[k].output == self.outputs@[p]@);
            lemma_first_yield_none(book, have, self.outputs@[p]@, book.len() as int, k);
            if craftable(book, from, book[k]) {
                lemma_craftable_monotone(book, from, have, book[k]);
            }
        }
    }

    /// Computes which outputs are obtainable from the inventory and, for each,
    /// how many one craft yields by its first recipe craftable from obtainable
    /// items. Starting from the inventory, an output becomes resolved once one
    /// of its recipes is craftable; each newly resolved output is queued, and
    /// only the outputs that list it as an option are checked again.
    pub fn run(&self, inventory: &Vec<String>) -> (r: Vec<(String, u32)>)
        ensures
            forall|a: int, b: int| 0 <= a < r.len() && 0 <= b < r.len() && a != b ==> r@[a].0@ != r@[b].0@,
            forall|a: int| 0 <= a < r.len() ==> yield_of(
                self.book(),
                obtainable(self.book(), view_set(inventory@)),
                #[trigger] r@[a].0@,
            ) == Some(r@[a].1),
            forall|o: Seq<char>| #[trigger] yield_of(self.book(), obtainable(self.book(), view_set(inventory@)), o) is Some
                ==> exists|a: int| 0 <= a < r.len() && r@[a].0@ == o,
    {
        let ghost book = self.book();
        let ghost inv = view_set(inventory@);
        let ghost ob = obtainable(book, inv);
        proof {
            use_type_invariant(self);
            self.lemma_outputs();
            lemma_inventory_obtainable(book, inv);
        }
        let n = self.outputs.len();
        let mut resolved: Vec<bool> = Vec::new();
        let mut j: usize = 0;
        while j < n
            invariant
                n == self.outputs.len(),
                j <= n,
                resolved@.len() == j,
                forall|a: int| 0 <= a < j ==> !resolved@[a],
            decreases n - j,
        {
            resolved.push(false);
            j = j + 1;
        }
        let mut t: usize = 0;
        while t < inventory.len()
            invariant
                self.wf(),
                n == self.outputs.len(),
                resolved@.len() == n,
                t <= inventory.len(),
                forall|a: int| 0 <= a < n ==> #[trigger] resolved@[a] == exists|u: int|
                    0 <= u < t && inventory@[u]@ == self.outputs@[a]@,
            decreases inventory.len() - t,
        {
            let ghost before = resolved@;
            let pos = position_of(&self.outputs, &inventory[t]);
            match pos {
                Some(b) => {
                    resolved.set(b, true);
                },
                None => {},
            }
            proof {
                assert forall|a: int| 0 <= a < n implies #[trigger] resolved@[a] == exists|u: int|
                    0 <= u < t + 1 && inventory@[u]@ == self.outputs@[a]@ by {
                    if exists|u: int| 0 <= u < t + 1 && inventory@[u]@ == self.outputs@[a]@ {
                        let u = choose|u: int| 0 <= u < t + 1 && inventory@[u]@ == self.outputs@[a]@;
                        if u == t {
                            assert(pos is Some);
                        }
                    }
                    if resolved@[a] && !before[a] {
                        assert(pos == Some(a as usize));
                    }
                }
            }
            t = t + 1;
        }
        proof {
            assert forall|a: int| 0 <= a < n && #[trigger] resolved@[a] implies ob.contains(self.outputs@[a]@) by {
                let u = choose|u: int| 0 <= u < inventory@.len() && inventory@[u]@ == self.outputs@[a]@;
                assert(inv.contains(self.outputs@[a]@));
            }
            assert forall|a: int| 0 <= a < n && inv.contains(#[trigger] self.outputs@[a]@) implies resolved@[a] by {
                let u = choose|u: int| 0 <= u < inventory@.len() && inventory@[u]@ == self.outputs@[a]@;
            }
        }
        let mut queue: VecDeque<usize> = VecDeque::new();
        let ghost start = have_of(self.outputs@, resolved@);
        proof {
            lemma_settled_empty(self.outputs@, resolved@);
        }
        let mut i: usize = 0;
        while i < n
            invariant
                self.wf(),
                book == self.book(),
                ob == obtainable(book, inv),
                n == self.outputs.len(),
                resolved@.len() == n,
                i <= n,
                queue_ok(n as int, resolved@, queue@),
                settled(self.outputs@, resolved@, queue@) == start,
                start.subset_of(have_of(self.outputs@, resolved@)),
                forall|a: int| 0 <= a < n && #[trigger] resolved@[a] ==> ob.contains(self.outputs@[a]@),
                forall|a: int| 0 <= a < n && inv.contains(#[trigger] self.outputs@[a]@) ==> resolved@[a],
                self.stuck(resolved@, start, i as int),
            decreases n - i,
        {
            if !resolved[i] {
                if self.craftable_count(i, &resolved).is_some() {
                    proof {
                        self.lemma_found_obtainable(inv, resolved@, i as int);
                        lemma_settled_push(self.outputs@, resolved@, queue@, i);
                        assert(self.outputs@[i as int]@ == self.outputs@[i as int]@);
                    }
                    let ghost before = resolved@;
                    resolved.set(i, true);
                    queue.push_back(i);
                    proof {
                        assert(start.subset_of(have_of(self.outputs@, resolved@))) by {
                            assert forall|x: Seq<char>| start.contains(x) implies have_of(self.outputs@, resolved@).contains(x) by {
                                assert(have_of(self.outputs@, before).contains(x));
                                let a = choose|a: int| 0 <= a < n && before[a] && #[trigger] self.outputs@[a]@ == x;
                                assert(resolved@[a]);
                            }
                        }
                        assert forall|k: int| 0 <= k < self.entries.len() && self.entries@[k].output < i + 1
                            && !resolved@[self.entries@[k].output as int]
                            implies !craftable(book, start, #[trigger] book[k]) by {
                            assert(!before[self.entries@[k].output as int]);
                        }
                    }
                } else {
                    proof {
                        assert(outputs_within(book, start, have_of(self.outputs@, resolved@)));
                        self.lemma_none_stuck(have_of(self.outputs@, resolved@), start, i as int);
                    }
                }
            }
            i = i + 1;
        }
        while queue.len() > 0
            invariant
                self.wf(),
                book == self.book(),
                ob == obtainable(book, inv),
                n == self.outputs.len(),
                resolved@.len() == n,
                queue_ok(n as int, resolved@, queue@),
                forall|a: int| 0 <= a < n && #[trigger] resolved@[a] ==> ob.contains(self.outputs@[a]@),
                forall|a: int| 0 <= a < n && inv.contains(#[trigger] self.outputs@[a]@) ==> resolved@[a],
                self.stuck(resolved@, settled(self.outputs@, resolved@, queue@), n as int),
            decreases 2 * count_false(resolved@) + queue@.len(),
        {
            let ghost measure = 2 * count_false(resolved@) + queue@.len();
            let ghost settled0 = settled(self.outputs@, resolved@, queue@);
            let ghost resolved0 = resolved@;
            proof { lemma_settled_pop(self.outputs@, resolved@, queue@); }
            let x = queue.pop_front().unwrap();
            let ghost settled1 = settled(self.outputs@, resolved@, queue@);
            proof {
                assert(settled1 == settled0.insert(self.outputs@[x as int]@));
                assert forall|a: int, b: int| 0 <= a < queue@.len() && 0 <= b < queue@.len() && a != b
                    implies queue@[a] != queue@[b] by {}
                assert(settled1.subset_of(have_of(self.outputs@, resolved@))) by {
                    assert forall|y: Seq<char>| settled1.contains(y) implies have_of(self.outputs@, resolved@).contains(y) by {
                        let a = choose|a: int| 0 <= a < n && resolved@[a] && !queue@.contains(a as usize) && #[trigger] self.outputs@[a]@ == y;
                    }
                }
            }
            let parents = &self.parents[x];
            let mut newly: Vec<usize> = Vec::new();
            let mut t: usize = 0;
            while t < parents.len()
                invariant
                    self.wf(),
                    book == self.book(),
                    ob == obtainable(book, inv),
                    n == self.outputs.len(),
                    resolved@.len() == n,
                    resolved@ == resolved0,
                    x < n,
                    parents == &self.parents@[x as int],
                    t <= parents.len(),
                    settled1.subset_of(have_of(self.outputs@, resolved@)),
                    forall|a: int| 0 <= a < n && #[trigger] resolved@[a] ==> ob.contains(self.outputs@[a]@),
                    forall|u: int| 0 <= u < newly@.len() ==> #[trigger] newly@[u] < n && ob.contains(self.outputs@[newly@[u] as int]@),
                    forall|u: int| 0 <= u < t ==> {
                        let p = #[trigger] parents@[u];
                        resolved@[p as int] || newly@.contains(p) || forall|k: int|
                            0 <= k < self.entries.len() && self.entries@[k].output == p
                                ==> !craftable(book, settled1, #[trigger] book[k])
                    },
                decreases parents.len() - t,
            {
                let p = parents[t];
                let ghost old_newly = newly@;
                if !resolved[p] {
                    if self.craftable_count(p, &resolved).is_some() {
                        proof { self.lemma_found_obtainable(inv, resolved@, p as int); }
                        newly.push(p);
                        proof {
                            assert(newly@[newly@.len() - 1] == p);
                        }
                    } else {
                        proof {
                            assert(outputs_within(book, settled1, have_of(self.outputs@, resolved@)));
                            self.lemma_none_stuck(have_of(self.outputs@, resolved@), settled1, p as int);
                        }
                    }
                }
                proof {
                    assert forall|u: int| 0 <= u < t + 1 implies {
                        let p2 = #[trigger] parents@[u];
                        resolved@[p2 as int] || newly@.contains(p2) || forall|k: int|
                            0 <= k < self.entries.len() && self.entries@[k].output == p2
                                ==> !craftable(book, settled1, #[trigger] book[k])
                    } by {
                        if u < t {
                            let p2 = parents@[u];
                            if old_newly.contains(p2) {
                                let w = choose|w: int| 0 <= w < old_newly.len() && old_newly[w] == p2;
                                assert(newly@[w] == old_newly[w]);
                            }
                        }
                    }
                }
                t = t + 1;
            }
            let ghost resolved1 = resolved@;
            let ghost queue1 = queue@;
            let mut u: usize = 0;
            while u < newly.len()
                invariant
                    self.wf(),
                    book == self.book(),
                    ob == obtainable(book, inv),
                    n == self.outputs.len(),
                    resolved@.len() == n,
                    resolved1.len() == n,
                    u <= newly.len(),
                    queue_ok(n as int, resolved@, queue@),
                    settled(self.outputs@, resolved@, queue@) == settled1,
                    forall|a: int| 0 <= a < n && resolved1[a] ==> #[trigger] resolved@[a],
                    forall|w: int| 0 <= w < u ==> resolved@[#[trigger] newly@[w] as int],
                    forall|a: int| 0 <= a < n && #[trigger] resolved@[a] ==> ob.contains(self.outputs@[a]@),
                    forall|w: int| 0 <= w < newly@.len() ==> #[trigger] newly@[w] < n && ob.contains(self.outputs@[newly@[w] as int]@),
                    forall|a: int| 0 <= a < n && resolved@[a] && !resolved1[a] ==> #[trigger] newly@.contains(a as usize),
                    2 * count_false(resolved@) + queue@.len() + 1 <= measure,
                decreases newly.len() - u,
            {
                let p = newly[u];
                if !resolved[p] {
                    proof {
                        lemma_settled_push(self.outputs@, resolved@, queue@, p);
                        lemma_count_false_set(resolved@, p as int);
                    }
                    let ghost before = resolved@;
                    resolved.set(p, true);
                    queue.push_back(p);
                    proof {
                        assert forall|a: int| 0 <= a < n && #[trigger] resolved@[a] implies ob.contains(self.outputs@[a]@) by {
                            if a != p {
                                assert(before[a]);
                            }
                        }
                        assert forall|a: int| 0 <= a < n && resolved@[a] && !resolved1[a] implies #[trigger] newly@.contains(a as usize) by {
                            if a == p {
                                assert(newly@[u as int] == p);
                            } else {
                                assert(before[a]);
                            }
                        }
                    }
                }
                u = u + 1;
            }
            proof {
                let settled2 = settled(self.outputs@, resolved@, queue@);
                assert forall|k: int|
                    0 <= k < self.entries.len() && self.entries@[k].output < n && !resolved@[self.entries@[k].output as int]
                    implies !craftable(book, settled2, #[trigger] book[k]) by {
                    let p = self.entries@[k].output;
                    assert(!resolved1[p as int]);
                    assert(!resolved0[p as int]);
                    if self.parents@[x as int]@.contains(p) {
                        let w = choose|w: int| 0 <= w < parents@.len() && parents@[w] == p;
                        assert(parents@[w] == p);
                        if newly@.contains(p) {
                            let v = choose|v: int| 0 <= v < newly@.len() && newly@[v] == p;
                            assert(resolved@[newly@[v] as int]);
                        }
                    } else {
                        let y = self.outputs@[x as int]@;
                        assert forall|q: int| 0 <= q < book[k].slots.len() implies !(#[trigger] book[k].slots[q]).contains(y) by {
                            assert(book[k].slots[q] == view_set(self.entries@[k].slots@[q]@));
                            if view_set(self.entries@[k].slots@[q]@).contains(self.outputs@[x as int]@) {
                                assert(self.parents@[x as int]@.contains(self.entries@[k].output));
                            }
                        }
                        lemma_insert_irrelevant(book, settled0, y, book[k]);
                        assert(!craftable(book, settled0, book[k]));
                    }
                }
            }
        }
        let ghost have = have_of(self.outputs@, resolved@);
        proof {
            assert(queue@ =~= Seq::<usize>::empty());
            lemma_settled_empty(self.outputs@, resolved@);
            self.lemma_run_fixpoint(inv, resolved@);
        }
        let mut r: Vec<(String, u32)> = Vec::new();
        let mut i: usize = 0;
        while i < n
            invariant
                self.wf(),
                book == self.book(),
                ob == obtainable(book, inv),
                have == have_of(self.outputs@, resolved@),
                n == self.outputs.len(),
                resolved@.len() == n,
                i <= n,
                forall|o: Seq<char>| yield_of(book, have, o) == yield_of(book, ob, o),
                forall|a: int| #![trigger r@[a]] 0 <= a < r.len() ==> exists|b: int| 0 <= b < i && #[trigger] self.outputs@[b]@ == r@[a].0@,
                forall|a: int, b: int| 0 <= a < r.len() && 0 <= b < r.len() && a != b ==> r@[a].0@ != r@[b].0@,
                forall|a: int| 0 <= a < r.len() ==> yield_of(book, ob, #[trigger] r@[a].0@) == Some(r@[a].1),
                forall|b: int| 0 <= b < i && yield_of(book, ob, #[trigger] self.outputs@[b]@) is Some
                    ==> exists|a: int| 0 <= a < r.len() && r@[a].0@ == self.outputs@[b]@,
            decreases n - i,
        {
            match self.craftable_count(i, &resolved) {
                Some(c) => {
                    let ghost before = r@;
                    r.push((self.outputs[i].clone(), c));
                    proof {
                        assert(r@[before.len() as int].0@ == self.outputs@[i as int]@);
                        assert forall|a: int| #![trigger r@[a]] 0 <= a < r.len() implies exists|b: int| 0 <= b < i + 1 && #[trigger] self.outputs@[b]@ == r@[a].0@ by {
                            if a < before.len() {
                                assert(r@[a] == before[a]);
                                let b = choose|b: int| 0 <= b < i && #[trigger] self.outputs@[b]@ == before[a].0@;
                            } else {
                                assert(self.outputs@[i as int]@ == r@[a].0@);
                            }
                        }
                        assert forall|a: int, b: int| 0 <= a < r.len() && 0 <= b < r.len() && a != b implies r@[a].0@ != r@[b].0@ by {
                            if a < before.len() && b < before.len() {
                                assert(r@[a] == before[a] && r@[b] == before[b]);
                            } else if a < before.len() {
                                assert(r@[a] == before[a]);
                                let b2 = choose|b2: int| 0 <= b2 < i && #[trigger] self.outputs@[b2]@ == before[a].0@;
                            } else if b < before.len() {
                                assert(r@[b] == before[b]);
                                let b2 = choose|b2: int| 0 <= b2 < i && #[trigger] self.outputs@[b2]@ == before[b].0@;
                            }
                        }
                        assert forall|a: int| 0 <= a < r.len() implies yield_of(book, ob, #[trigger] r@[a].0@) == Some(r@[a].1) by {
                            if a < before.len() {
                                assert(r@[a] == before[a]);
                            }
                        }
                        assert forall|b: int| 0 <= b < i + 1 && yield_of(book, ob, #[trigger] self.outputs@[b]@) is Some
                            implies exists|a: int| 0 <= a < r.len() && r@[a].0@ == self.outputs@[b]@ by {
                            if b < i {
                                let a = choose|a: int| 0 <= a < before.len() && before[a].0@ == self.outputs@[b]@;
                                assert(r@[a] == before[a]);
                            }
                        }
                    }
                },
                None => {},
            }
            i = i + 1;
        }
        proof {
            assert forall|o: Seq<char>| #[trigger] yield_of(book, ob, o) is Some implies exists|a: int| 0 <= a < r.len() && r@[a].0@ == o by {
                lemma_first_yield_some(book, ob, o, book.len() as int);
                let k = choose|k: int| 0 <= k < book.len() && book[k].output == o && craftable(book, ob, book[k])
                    && book[k].count == yield_of(book, ob, o).unwrap();
                assert(is_output(book, o));
                let b = choose|b: int| 0 <= b < self.outputs@.len() && self.outputs@[b]@ == o;
            }
        }
        r
    }

    /// At the end of the propagation the resolved outputs are exactly the
    /// obtainable outputs, so yields computed from them are those from the
    /// obtainable items.
    proof fn lemma_run_fixpoint(self, inv: Set<Seq<char>>, resolved: Seq<bool>)
        requires
            self.wf(),
            resolved.len() == self.outputs.len(),
            forall|a: int| 0 <= a < self.outputs.len() && #[trigger] resolved[a]
                ==> obtainable(self.book(), inv).contains(self.outputs@[a]@),
            forall|a: int| 0 <= a < self.outputs.len() && inv.contains(#[trigger] self.outputs@[a]@) ==> resolved[a],
            self.stuck(resolved, have_of(self.outputs@, resolved), self.outputs.len() as int),
        ensures
            forall|o: Seq<char>| yield_of(self.book(), have_of(self.outputs@, resolved), o) == yield_of(
                self.book(),
                obtainable(self.book(), inv),
                o,
            ),
    {
        let book = self.book();
        let have = have_of(self.outputs@, resolved);
        let ob = obtainable(book, inv);
        self.lemma_outputs();
        let whole = have.union(inv);
        assert(outputs_within(book, whole, have)) by {
            assert forall|x: Seq<char>| is_output(book, x) && #[trigger] whole.contains(x) implies have.contains(x) by {
                if inv.contains(x) && !have.contains(x) {
                    let a = choose|a: int| 0 <= a < self.outputs@.len() && self.outputs@[a]@ == x;
                    assert(resolved[a]);
                }
            }
        }
        assert(outputs_within(book, have, whole));
        assert(closed(book, whole)) by {
            assert forall|k: int| 0 <= k < book.len() && craftable(book, whole, #[trigger] book[k]) implies whole.contains(book[k].output) by {
                lemma_craftable_monotone(book, whole, have, book[k]);
                assert(self.entries@[k].output < self.outputs.len());
                assert(resolved[self.entries@[k].output as int]);
                assert(have.contains(self.outputs@[self.entries@[k].output as int]@));
            }
        }
        assert(outputs_within(book, ob, have)) by {
            assert forall|x: Seq<char>| is_output(book, x) && #[trigger] ob.contains(x) implies have.contains(x) by {
                assert(inv.subset_of(whole));
                assert(whole.contains(x));
            }
        }
        assert(outputs_within(book, have, ob)) by {
            assert forall|x: Seq<char>| is_output(book, x) && #[trigger] have.contains(x) implies ob.contains(x) by {
                let a = choose|a: int| 0 <= a < self.outputs@.len() && resolved[a] && #[trigger] self.outputs@[a]@ == x;
            }
        }
        assert forall|o: Seq<char>| yield_of(book, have, o) == yield_of(book, ob, o) by {
            lemma_first_yield_congruent(book, have, ob, o, book.len() as int);
        }
    }
}

} // verus!
