//! Minecraft item tags. A tag id such as `minecraft:planks` maps to a list of
//! member tokens, any of which may itself be a nested tag reference
//! (`#minecraft:chest_boats`) that is expanded when a token is resolved.
use vstd::prelude::*;

use crate::recipes::text::{
    count_false, lemma_count_false_set, distinct_views, push_distinct, strip_char_prefix, view_set, views,
};

verus! {

broadcast use vstd::string::group_string_axioms;

/// A single entry inside a tag file's `values` array: almost always a bare id
/// string, but the data format also permits an object form `{ "id": ... }`.
pub enum TagEntry {
    Id(String),
    Object { id: String },
}

impl TagEntry {
    /// The id an entry names, whichever form it takes.
    pub open spec fn id_view(&self) -> Seq<char> {
        match self {
            TagEntry::Id(id) => id@,
            TagEntry::Object { id } => id@,
        }
    }

    pub fn id(&self) -> (r: &str)
        ensures
            r@ == self.id_view(),
    {
        match self {
            TagEntry::Id(id) => id.as_str(),
            TagEntry::Object { id } => id.as_str(),
        }
    }
}

/// The character that marks a token as a tag reference.
pub const TAG_MARKER: char = '#';

/// A token that names a tag rather than an item: it starts with `TAG_MARKER`.
pub open spec fn is_tag_ref(t: Seq<char>) -> bool {
    t.len() > 0 && t[0] == TAG_MARKER
}

/// `b` is a member of the tag that the tag reference `a` names.
pub open spec fn expands_to(tags: Map<Seq<char>, Seq<Seq<char>>>, a: Seq<char>, b: Seq<char>) -> bool {
    &&& is_tag_ref(a)
    &&& tags.contains_key(a.drop_first())
    &&& tags[a.drop_first()].contains(b)
}

/// The `i`-th link of the token sequence `p` is a tag expansion.
pub open spec fn link(tags: Map<Seq<char>, Seq<Seq<char>>>, p: Seq<Seq<char>>, i: int) -> bool {
    expands_to(tags, p[i], p[i + 1])
}

/// `p` is a non-empty sequence of tokens, each a member of the tag named by
/// the one before it.
pub open spec fn is_chain(tags: Map<Seq<char>, Seq<Seq<char>>>, p: Seq<Seq<char>>) -> bool {
    &&& p.len() > 0
    &&& forall|i: int| 0 <= i < p.len() - 1 ==> #[trigger] link(tags, p, i)
}

/// `to` is reached from `from` by expanding tags zero or more times.
pub open spec fn reaches(tags: Map<Seq<char>, Seq<Seq<char>>>, from: Seq<char>, to: Seq<char>) -> bool {
    exists|p: Seq<Seq<char>>| #[trigger] is_chain(tags, p) && p[0] == from && p.last() == to
}

/// The item ids a token stands for: every literal (non-tag) token reached from
/// it by expanding tags, nested tags included. A literal token stands for
/// itself; a reference to an unknown tag stands for nothing.
pub open spec fn resolution(tags: Map<Seq<char>, Seq<Seq<char>>>, token: Seq<char>) -> Set<Seq<char>> {
    Set::new(|x: Seq<char>| !is_tag_ref(x) && reaches(tags, token, x))
}

/// Every token reaches itself.
pub proof fn lemma_reaches_self(tags: Map<Seq<char>, Seq<Seq<char>>>, a: Seq<char>)
    ensures
        reaches(tags, a, a),
{
    let p = seq![a];
    assert(is_chain(tags, p));
}

/// Reaching a tag reference reaches each member of the tag.
pub proof fn lemma_reaches_step(
    tags: Map<Seq<char>, Seq<Seq<char>>>,
    a: Seq<char>,
    b: Seq<char>,
    c: Seq<char>,
)
    requires
        reaches(tags, a, b),
        expands_to(tags, b, c),
    ensures
        reaches(tags, a, c),
{
    let p = choose|p: Seq<Seq<char>>| #[trigger] is_chain(tags, p) && p[0] == a && p.last() == b;
    let q = p.push(c);
    assert forall|i: int| 0 <= i < q.len() - 1 implies #[trigger] link(tags, q, i) by {
        if i < p.len() - 1 {
            assert(link(tags, p, i));
        }
    }
    assert(is_chain(tags, q));
}

/// A property that holds of the start of a chain and is carried across every
/// tag expansion holds of every token of the chain.
pub proof fn lemma_chain_carries(
    tags: Map<Seq<char>, Seq<Seq<char>>>,
    p: Seq<Seq<char>>,
    holds: spec_fn(Seq<char>) -> bool,
    i: int,
)
    requires
        is_chain(tags, p),
        holds(p[0]),
        forall|a: Seq<char>, b: Seq<char>| holds(a) && #[trigger] expands_to(tags, a, b) ==> holds(b),
        0 <= i < p.len(),
    ensures
        holds(p[i]),
    decreases i,
{
    if i > 0 {
        lemma_chain_carries(tags, p, holds, i - 1);
        assert(link(tags, p, i - 1));
    }
}

/// The ids that a slot's tokens can be satisfied by: what any of its tokens
/// resolves to.
pub open spec fn token_options(tags: Map<Seq<char>, Seq<Seq<char>>>, tokens: Seq<Seq<char>>) -> Set<Seq<char>> {
    Set::new(|x: Seq<char>| exists|t: int| 0 <= t < tokens.len() && resolution(tags, tokens[t]).contains(x))
}

/// A literal token (one that does not start with `#`) resolves to itself and
/// nothing else.
pub proof fn lemma_resolve_literal(tags: Map<Seq<char>, Seq<Seq<char>>>, x: Seq<char>)
    requires
        !is_tag_ref(x),
    ensures
        resolution(tags, x) == set![x],
{
    lemma_reaches_self(tags, x);
    assert forall|y: Seq<char>| resolution(tags, x).contains(y) <==> y == x by {
        if resolution(tags, x).contains(y) {
            let p = choose|p: Seq<Seq<char>>| #[trigger] is_chain(tags, p) && p[0] == x && p.last() == y;
            if p.len() > 1 {
                assert(link(tags, p, 0));
            }
        }
    }
    assert(resolution(tags, x) =~= set![x]);
}

/// A tag reference resolves to the union of what the members of the tag
/// resolve to, nested tags included; a reference to a tag that is not
/// registered resolves to nothing. This holds for cyclic tags too.
pub proof fn lemma_resolve_tag(tags: Map<Seq<char>, Seq<Seq<char>>>, t: Seq<char>)
    requires
        is_tag_ref(t),
    ensures
        resolution(tags, t) == Set::new(
            |x: Seq<char>|
                tags.contains_key(t.drop_first()) && exists|i: int|
                    0 <= i < tags[t.drop_first()].len() && resolution(tags, tags[t.drop_first()][i]).contains(x),
        ),
{
    let members = Set::new(
        |x: Seq<char>|
            tags.contains_key(t.drop_first()) && exists|i: int|
                0 <= i < tags[t.drop_first()].len() && resolution(tags, tags[t.drop_first()][i]).contains(x),
    );
    assert forall|x: Seq<char>| resolution(tags, t).contains(x) <==> members.contains(x) by {
        if resolution(tags, t).contains(x) {
            let p = choose|p: Seq<Seq<char>>| #[trigger] is_chain(tags, p) && p[0] == t && p.last() == x;
            assert(p.len() > 1);
            assert(link(tags, p, 0));
            let q = p.drop_first();
            assert forall|i: int| 0 <= i < q.len() - 1 implies #[trigger] link(tags, q, i) by {
                assert(link(tags, p, i + 1));
            }
            assert(is_chain(tags, q));
            let i = choose|i: int| 0 <= i < tags[t.drop_first()].len() && tags[t.drop_first()][i] == p[1];
            assert(resolution(tags, tags[t.drop_first()][i]).contains(x));
        }
        if members.contains(x) {
            let i = choose|i: int|
                0 <= i < tags[t.drop_first()].len() && resolution(tags, tags[t.drop_first()][i]).contains(x);
            let m = tags[t.drop_first()][i];
            let q = choose|q: Seq<Seq<char>>| #[trigger] is_chain(tags, q) && q[0] == m && q.last() == x;
            let p = seq![t] + q;
            assert forall|j: int| 0 <= j < p.len() - 1 implies #[trigger] link(tags, p, j) by {
                if j > 0 {
                    assert(link(tags, q, j - 1));
                    assert(p[j] == q[j - 1] && p[j + 1] == q[j]);
                } else {
                    assert(tags[t.drop_first()].contains(m));
                }
            }
            assert(is_chain(tags, p));
            assert(p.last() == x);
        }
    }
    assert(resolution(tags, t) =~= members);
}

/// Minecraft item tags: tag id (with namespace, e.g. `minecraft:planks`) to
/// raw member tokens.
pub struct Tags {
    tags: Vec<(String, Vec<String>)>,
}

/// A relative path written with `/` between its parts, where it may have
/// been written with `\\`.
pub open spec fn with_slashes(p: Seq<char>) -> Seq<char> {
    Seq::new(p.len(), |i: int| if p[i] == '\\' { '/' } else { p[i] })
}

/// `path` with each `\\` written as `/`.
pub fn normalize_separators(path: &str) -> (r: String)
    ensures
        r@ == with_slashes(path@),
{
    let n = path.unicode_len();
    let mut r = String::new();
    let mut i: usize = 0;
    proof {
        reveal_strlit("/");
    }
    assert(r@ =~= with_slashes(path@.take(0)));
    while i < n
        invariant
            n == path@.len(),
            i <= n,
            r@ == with_slashes(path@.take(i as int)),
            "/"@ == seq!['/'],
        decreases n - i,
    {
        let c = path.get_char(i);
        if c == '\\' {
            r.append("/");
        } else {
            r.append(path.substring_char(i, i + 1));
        }
        assert(r@ =~= with_slashes(path@.take(i + 1)));
        i = i + 1;
    }
    assert(path@.take(n as int) =~= path@);
    r
}

impl Tags {
    #[verifier::type_invariant]
    spec fn keys_distinct(self) -> bool {
        forall|i: int, j: int|
            0 <= i < self.tags.len() && 0 <= j < self.tags.len() && i != j
                ==> self.tags@[i].0@ != self.tags@[j].0@
    }

    spec fn index_of(self, k: Seq<char>) -> int {
        choose|i: int| 0 <= i < self.tags.len() && self.tags@[i].0@ == k
    }

    /// Tag id to the member tokens registered for it.
    pub closed spec fn view(&self) -> Map<Seq<char>, Seq<Seq<char>>> {
        Map::new(
            |k: Seq<char>| exists|i: int| 0 <= i < self.tags.len() && self.tags@[i].0@ == k,
            |k: Seq<char>| views(self.tags@[self.index_of(k)].1@),
        )
    }

    proof fn lemma_entry(self, i: int)
        requires
            self.keys_distinct(),
            0 <= i < self.tags.len(),
        ensures
            self.view().contains_key(self.tags@[i].0@),
            self.view()[self.tags@[i].0@] == views(self.tags@[i].1@),
    {
        let k = self.tags@[i].0@;
        assert(self.view().contains_key(k));
        let j = self.index_of(k);
        assert(j == i);
    }

    /// An empty set of tags.
    pub fn new() -> (r: Self)
        ensures
            r@ == Map::<Seq<char>, Seq<Seq<char>>>::empty(),
    {
        let r = Tags { tags: Vec::new() };
        assert(r@ =~= Map::<Seq<char>, Seq<Seq<char>>>::empty());
        r
    }

    fn find(&self, tag: &String) -> (r: Option<usize>)
        ensures
            match r {
                Some(i) => i < self.tags.len() && self.tags@[i as int].0@ == tag@,
                None => !self@.contains_key(tag@),
            },
    {
        let mut i: usize = 0;
        while i < self.tags.len()
            invariant
                i <= self.tags.len(),
                forall|j: int| 0 <= j < i ==> self.tags@[j].0@ != tag@,
            decreases self.tags.len() - i,
        {
            if self.tags[i].0 == *tag {
                return Some(i);
            }
            i = i + 1;
        }
        None
    }

    /// Registers one tag: a full tag id (e.g. `minecraft:planks`) and its member
    /// tokens, each an item id or a nested `#tag` reference. Re-registering a tag
    /// replaces its previous members.
    pub fn add(&mut self, tag: String, members: Vec<String>)
        ensures
            final(self)@ == old(self)@.insert(tag@, views(members@)),
    {
        proof { use_type_invariant(&*self); }
        let ghost old_self = *self;
        let ghost tv = tag@;
        let ghost mv = views(members@);
        let found = self.find(&tag);
        let mut entries: Vec<(String, Vec<String>)> = Vec::new();
        std::mem::swap(&mut entries, &mut self.tags);
        match found {
            Some(i) => {
                entries.set(i, (tag, members));
                self.tags = entries;
                proof {
                    assert forall|k: Seq<char>| #![auto] self@.contains_key(k) <==> old_self@.insert(tv, mv).contains_key(k) by {
                        if k == tv {
                            assert(self.tags@[i as int].0@ == k);
                        }
                        if k != tv && old_self@.contains_key(k) {
                            let j = old_self.index_of(k);
                            assert(self.tags@[j].0@ == k);
                        }
                        if self@.contains_key(k) && k != tv {
                            let j = self.index_of(k);
                            assert(old_self.tags@[j].0@ == k);
                        }
                    }
                    assert forall|k: Seq<char>| #![auto] self@.contains_key(k) implies self@[k] == old_self@.insert(tv, mv)[k] by {
                        let j = self.index_of(k);
                        self.lemma_entry(j);
                        if k != tv {
                            old_self.lemma_entry(j);
                        }
                    }
                    assert(self@ =~= old_self@.insert(tv, mv));
                }
            },
            None => {
                entries.push((tag, members));
                self.tags = entries;
                proof {
                    let n = old_self.tags.len() as int;
                    assert forall|k: Seq<char>| #![auto] self@.contains_key(k) <==> old_self@.insert(tv, mv).contains_key(k) by {
                        if k != tv && old_self@.contains_key(k) {
                            let j = old_self.index_of(k);
                            assert(self.tags@[j].0@ == k);
                        }
                        if k == tv {
                            assert(self.tags@[n].0@ == k);
                        }
                        if self@.contains_key(k) && k != tv {
                            let j = self.index_of(k);
                            assert(old_self.tags@[j].0@ == k);
                        }
                    }
                    assert forall|k: Seq<char>| #![auto] self@.contains_key(k) implies self@[k] == old_self@.insert(tv, mv)[k] by {
                        let j = self.index_of(k);
                        self.lemma_entry(j);
                        if k != tv {
                            old_self.lemma_entry(j);
                        }
                    }
                    assert(self@ =~= old_self@.insert(tv, mv));
                }
            },
        }
    }

    /// Registers the tag that one tag file defines: its id is `minecraft:`
    /// followed by the file's path relative to the tags directory (without
    /// extension, its parts joined by `/` whichever separator `relative`
    /// uses), and its members are the ids of the file's entries, in order. A
    /// tag registered before under that id is replaced.
    pub fn add_file(&mut self, relative: &str, entries: &Vec<TagEntry>)
        ensures
            final(self)@ == old(self)@.insert(
                "minecraft:"@ + with_slashes(relative@),
                Seq::new(entries.len() as nat, |i: int| entries@[i].id_view()),
            ),
    {
        let mut tag = "minecraft:".to_string();
        let path = normalize_separators(relative);
        tag.append(path.as_str());
        let mut members: Vec<String> = Vec::new();
        let mut i: usize = 0;
        while i < entries.len()
            invariant
                i <= entries.len(),
                members@.len() == i,
                forall|j: int| 0 <= j < i ==> #[trigger] members@[j]@ == entries@[j].id_view(),
            decreases entries.len() - i,
        {
            members.push(entries[i].id().to_string());
            i = i + 1;
        }
        assert(views(members@) =~= Seq::new(entries.len() as nat, |i: int| entries@[i].id_view()));
        self.add(tag, members);
    }

    /// Whether a token needs no more work during resolution: it waits on the
    /// stack, it is a tag reference that is already expanded or names no tag,
    /// or it is a literal already collected.
    spec fn handled(
        self,
        m: Seq<char>,
        stack: Seq<String>,
        out: Seq<String>,
        expanded: Seq<bool>,
    ) -> bool {
        ||| view_set(stack).contains(m)
        ||| is_tag_ref(m) && !self@.contains_key(m.drop_first())
        ||| is_tag_ref(m) && exists|i: int|
            0 <= i < self.tags.len() && expanded[i] && #[trigger] self.tags@[i].0@ == m.drop_first()
        ||| !is_tag_ref(m) && view_set(out).contains(m)
    }

    /// Every member of an expanded tag is handled.
    spec fn members_handled(self, stack: Seq<String>, out: Seq<String>, expanded: Seq<bool>) -> bool {
        forall|i: int, j: int|
            0 <= i < self.tags.len() && expanded[i] && 0 <= j < self.tags@[i].1.len()
                ==> self.handled(#[trigger] self.tags@[i].1@[j]@, stack, out, expanded)
    }

    proof fn lemma_resolution_complete(
        self,
        token: Seq<char>,
        out: Seq<String>,
        expanded: Seq<bool>,
        x: Seq<char>,
    )
        requires
            self.keys_distinct(),
            expanded.len() == self.tags.len(),
            self.handled(token, Seq::empty(), out, expanded),
            self.members_handled(Seq::empty(), out, expanded),
            resolution(self@, token).contains(x),
        ensures
            view_set(out).contains(x),
    {
        let st = Seq::<String>::empty();
        let holds = |m: Seq<char>| self.handled(m, st, out, expanded);
        let p = choose|p: Seq<Seq<char>>| #[trigger] is_chain(self@, p) && p[0] == token && p.last() == x;
        assert forall|a: Seq<char>, b: Seq<char>| holds(a) && #[trigger] expands_to(self@, a, b) implies holds(b) by {
            assert(!view_set(st).contains(a));
            let i = choose|i: int|
                0 <= i < self.tags.len() && expanded[i] && #[trigger] self.tags@[i].0@ == a.drop_first();
            self.lemma_entry(i);
            let j = choose|j: int| 0 <= j < views(self.tags@[i].1@).len() && views(self.tags@[i].1@)[j] == b;
            assert(self.tags@[i].1@[j]@ == b);
        }
        lemma_chain_carries(self@, p, holds, p.len() - 1);
        assert(!view_set(st).contains(x));
    }

    /// Resolves an ingredient token to the set of concrete item ids it can be
    /// satisfied by. A `#`-prefixed token is a tag and is expanded recursively
    /// (nested tags included, cycles broken); any other token is a literal item
    /// id. Each id appears once in the result.
    pub fn resolve(&self, token: &str) -> (r: Vec<String>)
        ensures
            distinct_views(r@),
            forall|x: Seq<char>| view_set(r@).contains(x) <==> resolution(self@, token@).contains(x),
    {
        proof { use_type_invariant(self); }
        let n = self.tags.len();
        let mut expanded: Vec<bool> = Vec::new();
        let mut k: usize = 0;
        while k < n
            invariant
                k <= n,
                expanded@.len() == k,
                forall|i: int| 0 <= i < k ==> !expanded@[i],
            decreases n - k,
        {
            expanded.push(false);
            k = k + 1;
        }
        let mut out: Vec<String> = Vec::new();
        let mut stack: Vec<String> = Vec::new();
        stack.push(token.to_string());
        proof {
            lemma_reaches_self(self@, token@);
            assert(stack@[0]@ == token@);
            assert(view_set(stack@).contains(token@));
        }
        while stack.len() > 0
            invariant
                self.keys_distinct(),
                n == self.tags.len(),
                expanded@.len() == n,
                distinct_views(out@),
                forall|j: int| 0 <= j < stack@.len() ==> reaches(self@, token@, #[trigger] stack@[j]@),
                forall|j: int| 0 <= j < out@.len() ==> !is_tag_ref(#[trigger] out@[j]@) && reaches(self@, token@, out@[j]@),
                self.handled(token@, stack@, out@, expanded@),
                self.members_handled(stack@, out@, expanded@),
            decreases count_false(expanded@), stack@.len(),
        {
            let ghost old_stack = stack@;
            let ghost old_out = out@;
            let ghost old_expanded = expanded@;
            let t = stack.pop().unwrap();
            let ghost last = old_stack.len() - 1;
            proof {
                assert(stack@ =~= old_stack.drop_last());
                assert(stack@.subrange(0, old_stack.len() - 1) =~= old_stack.drop_last());
                assert(t == old_stack[last]);
                assert(reaches(self@, token@, old_stack[last]@));
            }
            match strip_char_prefix(t.as_str(), TAG_MARKER) {
                Some(rest) => {
                    let key = rest.to_string();
                    match self.find(&key) {
                        Some(i) => {
                            if !expanded[i] {
                                expanded.set(i, true);
                                proof { lemma_count_false_set(old_expanded, i as int); }
                                let members = &self.tags[i].1;
                                proof { self.lemma_entry(i as int); }
                                let ghost pushed_from = stack@.len();
                                let mut j: usize = 0;
                                while j < members.len()
                                    invariant
                                        self.keys_distinct(),
                                        i < self.tags.len(),
                                        members == &self.tags@[i as int].1,
                                        self@.contains_key(key@),
                                        self@[key@] == views(members@),
                                        old_stack.len() > 0,
                                        pushed_from == old_stack.len() - 1,
                                        key@ == t@.drop_first(),
                                        is_tag_ref(t@),
                                        reaches(self@, token@, t@),
                                        j <= members.len(),
                                        pushed_from <= stack@.len(),
                                        stack@.len() == pushed_from + j,
                                        stack@.subrange(0, pushed_from as int) == old_stack.drop_last(),
                                        forall|q: int| 0 <= q < j ==> stack@[pushed_from + q]@ == members@[q]@,
                                        forall|q: int| 0 <= q < stack@.len() ==> reaches(self@, token@, #[trigger] stack@[q]@),
                                    decreases members.len() - j,
                                {
                                    let ghost before = stack@;
                                    stack.push(members[j].clone());
                                    proof {
                                        assert(views(members@)[j as int] == members@[j as int]@);
                                        assert(expands_to(self@, t@, members@[j as int]@));
                                        lemma_reaches_step(self@, token@, t@, members@[j as int]@);
                                        assert forall|q: int| 0 <= q < stack@.len() implies reaches(self@, token@, #[trigger] stack@[q]@) by {
                                            if q < before.len() {
                                                assert(stack@[q] == before[q]);
                                            }
                                        }
                                        assert(stack@.subrange(0, pushed_from as int) =~= before.subrange(0, pushed_from as int));
                                    }
                                    j = j + 1;
                                }
                                proof {
                                    assert forall|m: Seq<char>| self.handled(m, old_stack, old_out, old_expanded)
                                        implies self.handled(m, stack@, out@, expanded@) by {
                                        self.lemma_handled_after_pop(m, old_stack, stack@, old_out, out@, old_expanded, expanded@, t@);
                                    }
                                    assert forall|a: int, b: int|
                                        0 <= a < self.tags.len() && expanded@[a] && 0 <= b < self.tags@[a].1.len()
                                        implies self.handled(#[trigger] self.tags@[a].1@[b]@, stack@, out@, expanded@) by {
                                        let m = self.tags@[a].1@[b]@;
                                        if a == i {
                                            assert(stack@[pushed_from + b]@ == m);
                                        } else {
                                            self.lemma_handled_after_pop(m, old_stack, stack@, old_out, out@, old_expanded, expanded@, t@);
                                        }
                                    }
                                }
                            } else {
                                proof {
                                    assert forall|m: Seq<char>| self.handled(m, old_stack, old_out, old_expanded)
                                        implies self.handled(m, stack@, out@, expanded@) by {
                                        self.lemma_handled_after_pop(m, old_stack, stack@, old_out, out@, old_expanded, expanded@, t@);
                                    }
                                }
                            }
                        },
                        None => {
                            proof {
                                assert forall|m: Seq<char>| self.handled(m, old_stack, old_out, old_expanded)
                                    implies self.handled(m, stack@, out@, expanded@) by {
                                    self.lemma_handled_after_pop(m, old_stack, stack@, old_out, out@, old_expanded, expanded@, t@);
                                }
                            }
                        },
                    }
                },
                None => {
                    let ghost tv = t@;
                    push_distinct(&mut out, t);
                    proof {
                        assert forall|q: int| 0 <= q < out@.len() implies
                            !is_tag_ref(#[trigger] out@[q]@) && reaches(self@, token@, out@[q]@) by {
                            if q < old_out.len() {
                                assert(out@[q] == old_out[q]);
                            }
                        }
                        assert(view_set(out@).contains(tv));
                        assert forall|q: int| 0 <= q < old_out.len() implies view_set(out@).contains(#[trigger] old_out[q]@) by {
                            assert(out@[q] == old_out[q]);
                        }
                        assert forall|m: Seq<char>| self.handled(m, old_stack, old_out, old_expanded)
                            implies self.handled(m, stack@, out@, expanded@) by {
                            self.lemma_handled_after_pop(m, old_stack, stack@, old_out, out@, old_expanded, expanded@, tv);
                        }
                    }
                },
            }
        }
        proof {
            assert(stack@ =~= Seq::<String>::empty());
            assert forall|x: Seq<char>| view_set(out@).contains(x) <==> resolution(self@, token@).contains(x) by {
                if view_set(out@).contains(x) {
                    let q = choose|q: int| 0 <= q < out@.len() && out@[q]@ == x;
                    assert(!is_tag_ref(out@[q]@));
                }
                if resolution(self@, token@).contains(x) {
                    self.lemma_resolution_complete(token@, out@, expanded@, x);
                }
            }
        }
        out
    }

    /// The ids that any of a slot's tokens resolves to, each once.
    pub fn resolve_all(&self, tokens: &Vec<String>) -> (r: Vec<String>)
        ensures
            distinct_views(r@),
            view_set(r@) == token_options(self@, views(tokens@)),
    {
        let ghost tags = self@;
        let mut r: Vec<String> = Vec::new();
        let mut t: usize = 0;
        while t < tokens.len()
            invariant
                tags == self@,
                t <= tokens.len(),
                distinct_views(r@),
                forall|x: Seq<char>| view_set(r@).contains(x) <==> exists|u: int|
                    0 <= u < t && resolution(tags, tokens@[u]@).contains(x),
            decreases tokens.len() - t,
        {
            let ids = self.resolve(tokens[t].as_str());
            let mut i: usize = 0;
            while i < ids.len()
                invariant
                    tags == self@,
                    t < tokens.len(),
                    i <= ids.len(),
                    distinct_views(r@),
                    forall|x: Seq<char>| view_set(ids@).contains(x) <==> resolution(tags, tokens@[t as int]@).contains(x),
                    forall|x: Seq<char>| view_set(r@).contains(x) <==> (exists|u: int|
                        0 <= u < t && resolution(tags, tokens@[u]@).contains(x)) || exists|v: int|
                        0 <= v < i && ids@[v]@ == x,
                decreases ids.len() - i,
            {
                let ghost before = r@;
                push_distinct(&mut r, ids[i].clone());
                proof {
                    assert forall|x: Seq<char>| view_set(r@).contains(x) <==> (exists|u: int|
                        0 <= u < t && resolution(tags, tokens@[u]@).contains(x)) || exists|v: int|
                        0 <= v < i + 1 && ids@[v]@ == x by {
                        if exists|v: int| 0 <= v < i + 1 && ids@[v]@ == x {
                            let v = choose|v: int| 0 <= v < i + 1 && ids@[v]@ == x;
                            if v < i {
                                assert(view_set(before).contains(x));
                            }
                        }
                    }
                }
                i = i + 1;
            }
            proof {
                assert forall|x: Seq<char>| view_set(r@).contains(x) <==> exists|u: int|
                    0 <= u < t + 1 && resolution(tags, tokens@[u]@).contains(x) by {
                    if exists|v: int| 0 <= v < ids@.len() && ids@[v]@ == x {
                        assert(view_set(ids@).contains(x));
                    }
                    if resolution(tags, tokens@[t as int]@).contains(x) {
                        assert(view_set(ids@).contains(x));
                        let v = choose|v: int| 0 <= v < ids@.len() && ids@[v]@ == x;
                    }
                }
            }
            t = t + 1;
        }
        proof {
            assert(view_set(r@) =~= token_options(tags, views(tokens@))) by {
                assert forall|x: Seq<char>| view_set(r@).contains(x) <==> token_options(tags, views(tokens@)).contains(x) by {
                    if token_options(tags, views(tokens@)).contains(x) {
                        let u = choose|u: int| 0 <= u < views(tokens@).len() && resolution(tags, views(tokens@)[u]).contains(x);
                        assert(resolution(tags, tokens@[u]@).contains(x));
                    }
                    if view_set(r@).contains(x) {
                        let u = choose|u: int| 0 <= u < t && resolution(tags, tokens@[u]@).contains(x);
                        assert(views(tokens@)[u] == tokens@[u]@);
                    }
                }
            }
        }
        r
    }

    /// Popping `t` off the stack keeps every token handled, once `t` itself
    /// is handled by the step that processed it.
    proof fn lemma_handled_after_pop(
        self,
        m: Seq<char>,
        old_stack: Seq<String>,
        stack: Seq<String>,
        old_out: Seq<String>,
        out: Seq<String>,
        old_expanded: Seq<bool>,
        expanded: Seq<bool>,
        t: Seq<char>,
    )
        requires
            old_stack.len() > 0,
            old_stack.last()@ == t,
            stack.len() >= old_stack.len() - 1,
            stack.subrange(0, old_stack.len() - 1) == old_stack.drop_last(),
            forall|q: int| 0 <= q < old_out.len() ==> view_set(out).contains(#[trigger] old_out[q]@),
            old_expanded.len() == self.tags.len(),
            expanded.len() == self.tags.len(),
            forall|i: int| 0 <= i < old_expanded.len() && old_expanded[i] ==> expanded[i],
            self.handled(t, stack, out, expanded),
            self.handled(m, old_stack, old_out, old_expanded),
        ensures
            self.handled(m, stack, out, expanded),
    {
        if view_set(old_stack).contains(m) {
            let q = choose|q: int| 0 <= q < old_stack.len() && old_stack[q]@ == m;
            if q < old_stack.len() - 1 {
                assert(stack[q] == stack.subrange(0, old_stack.len() - 1)[q]);
                assert(view_set(stack).contains(m));
            }
        } else if is_tag_ref(m) && !self@.contains_key(m.drop_first()) {
        } else if is_tag_ref(m) && exists|i: int|
            0 <= i < self.tags.len() && old_expanded[i] && #[trigger] self.tags@[i].0@ == m.drop_first() {
            let i = choose|i: int|
                0 <= i < self.tags.len() && old_expanded[i] && #[trigger] self.tags@[i].0@ == m.drop_first();
            assert(expanded[i]);
        } else {
            let q = choose|q: int| 0 <= q < old_out.len() && old_out[q]@ == m;
            assert(view_set(out).contains(old_out[q]@));
        }
    }
}

impl Default for Tags {
    /// No tags.
    fn default() -> (r: Self)
        ensures
            r@ == Map::<Seq<char>, Seq<Seq<char>>>::empty(),
    {
        Tags::new()
    }
}

} // verus!
