//! Building a test inventory from random draws: each draw names a position in
//! a list of item ids and a quantity; draws outside the list are passed over.
use vstd::prelude::*;

use crate::recipes::tree_builder::item_views;
use crate::recipes::Item;

verus! {

broadcast use vstd::string::group_string_axioms;

/// How many stacks a generated inventory holds: four rows of nine.
pub const INVENTORY_SIZE: usize = 36;

/// The stacks that a sequence of draws picks, in order: one per draw whose
/// position lies within `items`, with that item's id and the drawn quantity.
pub open spec fn picks(items: Seq<String>, draws: Seq<(usize, u8)>) -> Seq<(Seq<char>, u8)>
    decreases draws.len(),
{
    if draws.len() == 0 {
        Seq::empty()
    } else {
        let prev = picks(items, draws.drop_last());
        let d = draws.last();
        if d.0 < items.len() {
            prev.push((items[d.0 as int]@, d.1))
        } else {
            prev
        }
    }
}

/// A draw names a position within the item list.
pub open spec fn in_range(items: Seq<String>, d: (usize, u8)) -> bool {
    d.0 < items.len()
}

/// Every draw within the list picks exactly one stack, in draw order: that
/// item with the drawn quantity, whatever was drawn before it; draws outside
/// the list pick nothing.
pub proof fn lemma_picks_each_draw(items: Seq<String>, draws: Seq<(usize, u8)>)
    ensures
        picks(items, draws).len() == draws.filter(|d: (usize, u8)| in_range(items, d)).len(),
        forall|i: int| 0 <= i < picks(items, draws).len() ==> #[trigger] picks(items, draws)[i] == (
            items[draws.filter(|d: (usize, u8)| in_range(items, d))[i].0 as int]@,
            draws.filter(|d: (usize, u8)| in_range(items, d))[i].1,
        ),
    decreases draws.len(),
{
    reveal(Seq::filter);
    let f = |d: (usize, u8)| in_range(items, d);
    if draws.len() > 0 {
        let prev = draws.drop_last();
        lemma_picks_each_draw(items, prev);
        assert(draws.filter(f) == if f(draws.last()) {
            prev.filter(f).push(draws.last())
        } else {
            prev.filter(f)
        });
    }
}

/// A picked inventory holds one stack per draw within the list, up to
/// `INVENTORY_SIZE` stacks: as many as there are such draws, or
/// `INVENTORY_SIZE` when there are more; its stacks are the first such draws'
/// items and quantities, in order.
pub proof fn lemma_inventory_from_draws(items: Seq<String>, draws: Seq<(usize, u8)>)
    ensures
        ({
            let p = picks(items, draws);
            let r = if p.len() <= INVENTORY_SIZE { p } else { p.take(INVENTORY_SIZE as int) };
            let kept = draws.filter(|d: (usize, u8)| in_range(items, d));
            &&& r.len() == if kept.len() <= INVENTORY_SIZE { kept.len() } else { INVENTORY_SIZE as nat }
            &&& forall|i: int| 0 <= i < r.len() ==> #[trigger] r[i] == (items[kept[i].0 as int]@, kept[i].1)
        }),
{
    lemma_picks_each_draw(items, draws);
}

/// The inventory that the draws pick: the first `INVENTORY_SIZE` stacks that
/// they pick, or all of them when they pick fewer.
pub fn pick_inventory(items: &Vec<String>, draws: &Vec<(usize, u8)>) -> (r: Vec<Item>)
    ensures
        item_views(r@) == if picks(items@, draws@).len() <= INVENTORY_SIZE {
            picks(items@, draws@)
        } else {
            picks(items@, draws@).take(INVENTORY_SIZE as int)
        },
        r.len() == if draws@.filter(|d: (usize, u8)| in_range(items@, d)).len() <= INVENTORY_SIZE {
            draws@.filter(|d: (usize, u8)| in_range(items@, d)).len()
        } else {
            INVENTORY_SIZE as nat
        },
{
    let mut r: Vec<Item> = Vec::new();
    let mut t: usize = 0;
    while t < draws.len() && r.len() < INVENTORY_SIZE
        invariant
            t <= draws.len(),
            r.len() <= INVENTORY_SIZE,
            item_views(r@) == picks(items@, draws@.take(t as int)),
        decreases draws.len() - t,
    {
        let (position, quantity) = draws[t];
        proof {
            assert(draws@.take(t + 1).drop_last() =~= draws@.take(t as int));
            assert(draws@.take(t + 1).last() == draws@[t as int]);
        }
        if position < items.len() {
            let ghost before = r@;
            r.push(Item { id: items[position].clone(), quantity });
            assert(item_views(r@) =~= item_views(before).push((items@[position as int]@, quantity)));
        }
        t = t + 1;
    }
    proof {
        lemma_inventory_from_draws(items@, draws@);
        lemma_picks_prefix(items@, draws@, t as int);
        if t < draws.len() {
            assert(r.len() == INVENTORY_SIZE);
            assert(picks(items@, draws@).take(INVENTORY_SIZE as int) =~= picks(items@, draws@.take(t as int)));
        } else {
            assert(draws@.take(t as int) =~= draws@);
        }
    }
    r
}

/// The picks of a prefix of the draws are a prefix of the picks of all.
proof fn lemma_picks_prefix(items: Seq<String>, draws: Seq<(usize, u8)>, t: int)
    requires
        0 <= t <= draws.len(),
    ensures
        picks(items, draws.take(t)).len() <= picks(items, draws).len(),
        picks(items, draws.take(t)) == picks(items, draws).take(picks(items, draws.take(t)).len() as int),
    decreases draws.len() - t,
{
    if t == draws.len() {
        assert(draws.take(t) =~= draws);
        assert(picks(items, draws).take(picks(items, draws).len() as int) =~= picks(items, draws));
    } else {
        lemma_picks_prefix(items, draws, t + 1);
        let a = picks(items, draws.take(t));
        let b = picks(items, draws.take(t + 1));
        let all = picks(items, draws);
        assert(draws.take(t + 1).drop_last() =~= draws.take(t));
        assert(a.len() <= b.len());
        assert(a =~= all.take(a.len() as int)) by {
            assert forall|i: int| 0 <= i < a.len() implies a[i] == all[i] by {
                assert(a[i] == b[i]);
                assert(b[i] == all.take(b.len() as int)[i]);
            }
        }
    }
}

} // verus!
